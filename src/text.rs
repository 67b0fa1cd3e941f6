use vstd::prelude::*;
use vstd::std_specs::iter::IteratorSpec;

verus! {

broadcast use vstd::string::group_string_axioms;

/// The characters of `s`, in order.
pub fn chars_of(s: &str) -> (r: Vec<char>)
    ensures
        r@ == s@,
{
    let mut v: Vec<char> = Vec::new();
    let mut it = s.chars();
    loop
        invariant
            it.obeys_prophetic_iter_laws(),
            v@ + it.remaining() == s@,
            it.decrease() is Some,
        decreases it.decrease()->0,
    {
        match it.next() {
            Some(c) => {
                v.push(c);
            },
            None => {
                proof {
                    assert(v@ =~= s@);
                }
                return v;
            },
        }
    }
}

} // verus!

verus! {

/// Relies on `String: FromIterator<char>`: the string holds the given characters in order.
#[verifier::external_body]
pub(crate) fn string_of(v: &[char]) -> (r: String)
    ensures
        r@ == v@,
{
    v.iter().collect()
}

/// Whether two strings hold the same characters.
pub fn str_eq(a: &str, b: &str) -> (r: bool)
    ensures
        r == (a@ == b@),
{
    let x = chars_of(a);
    let y = chars_of(b);
    if x.len() != y.len() {
        return false;
    }
    let mut i: usize = 0;
    while i < x.len()
        invariant
            x@ == a@,
            y@ == b@,
            x.len() == y.len(),
            i <= x.len(),
            forall|k: int| 0 <= k < i ==> x@[k] == y@[k],
        decreases x.len() - i,
    {
        if x[i] != y[i] {
            return false;
        }
        i = i + 1;
    }
    proof {
        assert(x@ =~= y@);
    }
    true
}

/// The fields of `s` separated by `d`, as `str::split` with a `char` pattern
/// gives them: one more field than there are separators.
pub open spec fn split_on(s: Seq<char>, d: char) -> Seq<Seq<char>>
    decreases s.len(),
{
    if s.len() == 0 {
        seq![Seq::<char>::empty()]
    } else {
        let p = split_on(s.drop_last(), d);
        if s.last() == d {
            p.push(Seq::<char>::empty())
        } else {
            p.update(p.len() - 1, p.last().push(s.last()))
        }
    }
}

pub proof fn lemma_split_on_nonempty(s: Seq<char>, d: char)
    ensures
        split_on(s, d).len() >= 1,
    decreases s.len(),
{
    if s.len() > 0 {
        lemma_split_on_nonempty(s.drop_last(), d);
    }
}

/// Splits `s` at each occurrence of `d`.
pub fn split_fields(s: &str, d: char) -> (r: Vec<Vec<char>>)
    ensures
        r@.map_values(|f: Vec<char>| f@) == split_on(s@, d),
{
    let cs = chars_of(s);
    let mut fields: Vec<Vec<char>> = Vec::new();
    let mut cur: Vec<char> = Vec::new();
    let mut i: usize = 0;
    while i < cs.len()
        invariant
            cs@ == s@,
            i <= cs.len(),
            fields@.map_values(|f: Vec<char>| f@).push(cur@) == split_on(cs@.take(i as int), d),
        decreases cs.len() - i,
    {
        let c = cs[i];
        proof {
            assert(cs@.take(i + 1).drop_last() =~= cs@.take(i as int));
            lemma_split_on_nonempty(cs@.take(i as int), d);
        }
        if c == d {
            let done = cur;
            proof {
                assert(fields@.push(done).map_values(|f: Vec<char>| f@) =~= fields@.map_values(
                    |f: Vec<char>| f@,
                ).push(done@));
            }
            fields.push(done);
            cur = Vec::new();
            proof {
                assert(fields@.map_values(|f: Vec<char>| f@).push(cur@) =~= split_on(
                    cs@.take(i + 1),
                    d,
                ));
            }
        } else {
            cur.push(c);
            proof {
                assert(fields@.map_values(|f: Vec<char>| f@).push(cur@) =~= split_on(
                    cs@.take(i + 1),
                    d,
                ));
            }
        }
        i = i + 1;
    }
    proof {
        assert(cs@.take(i as int) =~= cs@);
        assert(fields@.push(cur).map_values(|f: Vec<char>| f@) =~= fields@.map_values(
            |f: Vec<char>| f@,
        ).push(cur@));
    }
    fields.push(cur);
    fields
}

} // verus!

verus! {

pub open spec fn is_digit(c: char) -> bool {
    '0' <= c && c <= '9'
}

pub open spec fn digit_value(c: char) -> nat {
    (c as nat - '0' as nat) as nat
}

/// The number written by the decimal digits `s`.
pub open spec fn decimal_value(s: Seq<char>) -> nat
    decreases s.len(),
{
    if s.len() == 0 {
        0
    } else {
        decimal_value(s.drop_last()) * 10 + digit_value(s.last())
    }
}

/// The digits of a decimal literal, after an optional leading `+`.
pub open spec fn decimal_body(s: Seq<char>) -> Seq<char> {
    if s.len() > 0 && s[0] == '+' {
        s.drop_first()
    } else {
        s
    }
}

/// What `str::parse` gives for an unsigned integer type whose largest value is `max`:
/// an optional `+`, then one or more decimal digits, of a value that fits.
pub open spec fn parse_unsigned(s: Seq<char>, max: nat) -> Option<nat> {
    let b = decimal_body(s);
    if b.len() > 0 && (forall|i: int| 0 <= i < b.len() ==> is_digit(#[trigger] b[i]))
        && decimal_value(b) <= max {
        Some(decimal_value(b))
    } else {
        None
    }
}

proof fn lemma_prefix_value_le(s: Seq<char>, j: int, k: int)
    requires
        0 <= j <= k <= s.len(),
    ensures
        decimal_value(s.take(j)) <= decimal_value(s.take(k)),
    decreases k - j,
{
    if j < k {
        lemma_prefix_value_le(s, j, k - 1);
        assert(s.take(k).drop_last() =~= s.take(k - 1));
        assert(decimal_value(s.take(k)) == decimal_value(s.take(k - 1)) * 10 + digit_value(
            s.take(k).last(),
        ));
    }
}

/// Reads an unsigned decimal literal no larger than `max`.
pub fn parse_decimal(s: &str, max: u64) -> (r: Option<u64>)
    ensures
        match parse_unsigned(s@, max as nat) {
            Some(n) => r == Some(n as u64),
            None => r is None,
        },
{
    let cs = chars_of(s);
    let start: usize = if cs.len() > 0 && cs[0] == '+' {
        1
    } else {
        0
    };
    let ghost b = decimal_body(s@);
    assert(b =~= cs@.subrange(start as int, cs@.len() as int));
    if start >= cs.len() {
        return None;
    }
    let mut acc: u64 = 0;
    let mut i: usize = start;
    while i < cs.len()
        invariant
            cs@ == s@,
            b =~= cs@.subrange(start as int, cs@.len() as int),
            b == decimal_body(s@),
            start <= i <= cs.len(),
            forall|k: int| 0 <= k < i - start ==> is_digit(#[trigger] b[k]),
            acc as nat == decimal_value(b.take(i - start)),
            acc <= max,
        decreases cs.len() - i,
    {
        let c = cs[i];
        assert(b.take(i - start + 1).drop_last() =~= b.take(i - start));
        assert(b[i - start] == c);
        if c < '0' || c > '9' {
            assert(!is_digit(b[i - start]));
            return None;
        }
        let d: u64 = (c as u32 - '0' as u32) as u64;
        if d > max || acc > (max - d) / 10 {
            proof {
                assert(acc * 10 + d > max) by (nonlinear_arith)
                    requires
                        d > max || acc > (max - d) / 10,
                        acc >= 0,
                ;
                assert(decimal_value(b.take(i - start + 1)) == acc * 10 + d);
                lemma_prefix_value_le(b, i - start + 1, b.len() as int);
                assert(b.take(b.len() as int) =~= b);
            }
            return None;
        }
        proof {
            assert(acc * 10 + d <= max) by (nonlinear_arith)
                requires
                    acc <= (max - d) / 10,
                    d <= 9,
            ;
        }
        acc = acc * 10 + d;
        i = i + 1;
    }
    assert(b.take(i - start) =~= b);
    Some(acc)
}

} // verus!

verus! {

/// The character sequences of a list of strings.
pub open spec fn string_views(v: Seq<String>) -> Seq<Seq<char>> {
    v.map_values(|s: String| s@)
}

} // verus!
