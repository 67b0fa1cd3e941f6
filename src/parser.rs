use crate::text::{chars_of, string_of, string_views};
use vstd::prelude::*;

verus! {

/// What `char::is_alphanumeric` answers for a character.
pub uninterp spec fn alnum_of(c: char) -> bool;

/// What `char::is_numeric` answers for a character.
pub uninterp spec fn numeric_of(c: char) -> bool;

/// What `str::to_lowercase` makes of a string.
pub uninterp spec fn lower_of(s: Seq<char>) -> Seq<char>;

/// Relies on `char::is_alphanumeric`: the Unicode Alphabetic or Numeric property of `c`.
#[verifier::external_body]
fn is_alphanumeric(c: char) -> (r: bool)
    ensures
        r == alnum_of(c),
{
    c.is_alphanumeric()
}

/// Relies on `char::is_numeric`: the Unicode Numeric property of `c`.
#[verifier::external_body]
fn is_numeric(c: char) -> (r: bool)
    ensures
        r == numeric_of(c),
{
    c.is_numeric()
}

/// Relies on `str::to_lowercase`: the lower-case form of `s`, which depends on
/// the characters alone.
#[verifier::external_body]
fn to_lowercase(s: &str) -> (r: String)
    ensures
        r@ == lower_of(s@),
{
    s.to_lowercase()
}

/// Shortest token kept, in bytes of its lower-case form.
pub const TOKEN_MIN_LENGTH: usize = 3;

/// Shortest run of hexadecimal digits that is dropped as a hash or an id.
pub const HEXCODE_MIN_LENGTH: usize = 20;

/// A character that belongs to a token: alphanumeric, or one of `. _ - @`.
pub open spec fn is_token_char(c: char) -> bool {
    alnum_of(c) || c == '.' || c == '_' || c == '-' || c == '@'
}

pub open spec fn is_hex_digit(c: char) -> bool {
    ('0' <= c && c <= '9') || ('a' <= c && c <= 'f') || ('A' <= c && c <= 'F')
}

pub open spec fn all_numeric(s: Seq<char>) -> bool {
    forall|i: int| 0 <= i < s.len() ==> numeric_of(#[trigger] s[i])
}

pub open spec fn all_hex(s: Seq<char>) -> bool {
    forall|i: int| 0 <= i < s.len() ==> is_hex_digit(#[trigger] s[i])
}

pub open spec fn all_dot_digit(s: Seq<char>) -> bool {
    forall|i: int| 0 <= i < s.len() ==> numeric_of(#[trigger] s[i]) || s[i] == '.'
}

/// The maximal runs of token characters in `s`, left to right.
pub open spec fn runs(s: Seq<char>) -> Seq<Seq<char>>
    decreases s.len(),
{
    if s.len() == 0 {
        Seq::empty()
    } else {
        let r = runs(s.drop_last());
        let c = s.last();
        if !is_token_char(c) {
            r
        } else if s.len() >= 2 && is_token_char(s[s.len() - 2]) {
            r.update(r.len() - 1, r.last().push(c))
        } else {
            r.push(seq![c])
        }
    }
}

/// Bytes that `c` takes in UTF-8.
pub open spec fn utf8_width(c: char) -> nat {
    if (c as u32) < 0x80 {
        1
    } else if (c as u32) < 0x800 {
        2
    } else if (c as u32) < 0x10000 {
        3
    } else {
        4
    }
}

/// Bytes that `s` takes in UTF-8.
pub open spec fn byte_len(s: Seq<char>) -> nat
    decreases s.len(),
{
    if s.len() == 0 {
        0
    } else {
        byte_len(s.drop_last()) + utf8_width(s.last())
    }
}

/// Whether a lower-cased token is kept: at least three bytes, not all numeric,
/// not a long run of hexadecimal digits, not digits and dots only.
pub open spec fn keeps(t: Seq<char>) -> bool {
    &&& byte_len(t) >= TOKEN_MIN_LENGTH
    &&& !all_numeric(t)
    &&& !(all_hex(t) && t.len() >= HEXCODE_MIN_LENGTH)
    &&& !all_dot_digit(t)
}

/// The tokens that a sequence of runs gives, in order.
pub open spec fn tokens_from(rs: Seq<Seq<char>>) -> Seq<Seq<char>>
    decreases rs.len(),
{
    if rs.len() == 0 {
        Seq::empty()
    } else {
        let t = tokens_from(rs.drop_last());
        if keeps(lower_of(rs.last())) {
            t.push(lower_of(rs.last()))
        } else {
            t
        }
    }
}

/// The tokens of a text: its runs lower-cased, then filtered by `keeps`.
pub open spec fn tokens_of(s: Seq<char>) -> Seq<Seq<char>> {
    tokens_from(runs(s))
}

pub proof fn lemma_runs_nonempty(s: Seq<char>)
    requires
        s.len() > 0,
        is_token_char(s.last()),
    ensures
        runs(s).len() > 0,
    decreases s.len(),
{
    if s.len() >= 2 && is_token_char(s[s.len() - 2]) {
        lemma_runs_nonempty(s.drop_last());
    }
}

/// A separator between two texts splits no run: the runs of the whole are the
/// runs of the first text followed by those of the second.
pub proof fn lemma_runs_concat(a: Seq<char>, sep: char, b: Seq<char>)
    requires
        !is_token_char(sep),
    ensures
        runs(a + seq![sep] + b) == runs(a) + runs(b),
    decreases b.len(),
{
    let s = a + seq![sep] + b;
    if b.len() == 0 {
        assert(s.drop_last() =~= a);
        assert(runs(a) + runs(b) =~= runs(a));
    } else {
        let b1 = b.drop_last();
        assert(s.drop_last() =~= a + seq![sep] + b1);
        lemma_runs_concat(a, sep, b1);
        let c = b.last();
        assert(s.last() == c);
        if !is_token_char(c) {
            assert(runs(b) == runs(b1));
        } else if s.len() >= 2 && is_token_char(s[s.len() - 2]) {
            assert(b.len() >= 2);
            assert(s[s.len() - 2] == b[b.len() - 2]);
            assert(b1.last() == b[b.len() - 2]);
            lemma_runs_nonempty(b1);
            assert(runs(s) =~= runs(a) + runs(b));
        } else {
            if b.len() >= 2 {
                assert(s[s.len() - 2] == b[b.len() - 2]);
            }
            assert(runs(s) =~= runs(a) + runs(b));
        }
    }
}

pub proof fn lemma_tokens_from_concat(x: Seq<Seq<char>>, y: Seq<Seq<char>>)
    ensures
        tokens_from(x + y) == tokens_from(x) + tokens_from(y),
    decreases y.len(),
{
    if y.len() == 0 {
        assert(x + y =~= x);
        assert(tokens_from(x) + tokens_from(y) =~= tokens_from(x));
    } else {
        assert((x + y).drop_last() =~= x + y.drop_last());
        lemma_tokens_from_concat(x, y.drop_last());
        assert((x + y).last() == y.last());
        if keeps(lower_of(y.last())) {
            assert(tokens_from(x + y) =~= tokens_from(x) + tokens_from(y));
        } else {
            assert(tokens_from(x + y) =~= tokens_from(x) + tokens_from(y));
        }
    }
}

/// Tokenizing two texts joined by a separator gives the tokens of the first
/// followed by the tokens of the second.
pub proof fn lemma_tokens_concat(a: Seq<char>, sep: char, b: Seq<char>)
    requires
        !is_token_char(sep),
    ensures
        tokens_of(a + seq![sep] + b) == tokens_of(a) + tokens_of(b),
{
    lemma_runs_concat(a, sep, b);
    lemma_tokens_from_concat(runs(a), runs(b));
}

proof fn lemma_tokens_from_filter(rs: Seq<Seq<char>>)
    ensures
        tokens_from(rs) == rs.map_values(|r: Seq<char>| lower_of(r)).filter(
            |t: Seq<char>| keeps(t),
        ),
        forall|i: int| 0 <= i < tokens_from(rs).len() ==> keeps(#[trigger] tokens_from(rs)[i]),
    decreases rs.len(),
{
    reveal(Seq::filter);
    let m = rs.map_values(|r: Seq<char>| lower_of(r));
    if rs.len() > 0 {
        lemma_tokens_from_filter(rs.drop_last());
        assert(m.drop_last() =~= rs.drop_last().map_values(|r: Seq<char>| lower_of(r)));
        assert(m.last() == lower_of(rs.last()));
    } else {
        assert(m.len() == 0);
    }
}

/// The tokens of a text are its runs lower-cased and filtered by `keeps`:
/// every token takes at least three bytes and is not all numeric, not a long
/// run of hexadecimal digits, and not digits and dots only.
pub proof fn lemma_tokens_normalized(s: Seq<char>)
    ensures
        tokens_of(s) == runs(s).map_values(|r: Seq<char>| lower_of(r)).filter(
            |t: Seq<char>| keeps(t),
        ),
        forall|i: int|
            0 <= i < tokens_of(s).len() ==> {
                let t = #[trigger] tokens_of(s)[i];
                &&& byte_len(t) >= TOKEN_MIN_LENGTH
                &&& !all_numeric(t)
                &&& !(all_hex(t) && t.len() >= HEXCODE_MIN_LENGTH)
                &&& !all_dot_digit(t)
            },
{
    lemma_tokens_from_filter(runs(s));
}

fn is_token_char_exec(c: char) -> (r: bool)
    ensures
        r == is_token_char(c),
{
    is_alphanumeric(c) || c == '.' || c == '_' || c == '-' || c == '@'
}

/// Whether every character of `run` is numeric.
pub fn check_numeric(run: &[char]) -> (r: bool)
    ensures
        r == all_numeric(run@),
{
    let mut i: usize = 0;
    while i < run.len()
        invariant
            i <= run.len(),
            forall|k: int| 0 <= k < i ==> numeric_of(#[trigger] run@[k]),
        decreases run.len() - i,
    {
        if !is_numeric(run[i]) {
            return false;
        }
        i = i + 1;
    }
    true
}

/// Whether every character of `run` is an ASCII hexadecimal digit.
pub fn check_hexdigit(run: &[char]) -> (r: bool)
    ensures
        r == all_hex(run@),
{
    let mut i: usize = 0;
    while i < run.len()
        invariant
            i <= run.len(),
            forall|k: int| 0 <= k < i ==> is_hex_digit(#[trigger] run@[k]),
        decreases run.len() - i,
    {
        let c = run[i];
        if !(('0' <= c && c <= '9') || ('a' <= c && c <= 'f') || ('A' <= c && c <= 'F')) {
            return false;
        }
        i = i + 1;
    }
    true
}

/// Whether every character of `run` is numeric or a dot.
pub fn check_dotdigit(run: &[char]) -> (r: bool)
    ensures
        r == all_dot_digit(run@),
{
    let mut i: usize = 0;
    while i < run.len()
        invariant
            i <= run.len(),
            forall|k: int| 0 <= k < i ==> numeric_of(#[trigger] run@[k]) || run@[k] == '.',
        decreases run.len() - i,
    {
        let c = run[i];
        if !(is_numeric(c) || c == '.') {
            return false;
        }
        i = i + 1;
    }
    true
}

proof fn lemma_byte_len_prefix(s: Seq<char>, j: int, k: int)
    requires
        0 <= j <= k <= s.len(),
    ensures
        byte_len(s.take(j)) <= byte_len(s.take(k)),
    decreases k - j,
{
    if j < k {
        lemma_byte_len_prefix(s, j, k - 1);
        assert(s.take(k).drop_last() =~= s.take(k - 1));
    }
}

/// Whether `t` takes at least `n` bytes in UTF-8.
fn has_min_bytes(t: &Vec<char>, n: usize) -> (r: bool)
    requires
        n <= 1024,
    ensures
        r == (byte_len(t@) >= n),
{
    if n == 0 {
        return true;
    }
    let mut sum: usize = 0;
    let mut i: usize = 0;
    while i < t.len()
        invariant
            i <= t.len(),
            sum == byte_len(t@.take(i as int)),
            sum < n,
            n <= 1024,
        decreases t.len() - i,
    {
        let c = t[i];
        let w: usize = if (c as u32) < 0x80 {
            1
        } else if (c as u32) < 0x800 {
            2
        } else if (c as u32) < 0x10000 {
            3
        } else {
            4
        };
        assert(t@.take(i + 1).drop_last() =~= t@.take(i as int));
        sum = sum + w;
        i = i + 1;
        if sum >= n {
            proof {
                lemma_byte_len_prefix(t@, i as int, t@.len() as int);
                assert(t@.take(t@.len() as int) =~= t@);
            }
            return true;
        }
    }
    assert(t@.take(i as int) =~= t@);
    false
}

/// The token that a run gives, if it is kept.
fn normalize(run: &Vec<char>) -> (r: Option<String>)
    ensures
        match r {
            Some(t) => keeps(lower_of(run@)) && t@ == lower_of(run@),
            None => !keeps(lower_of(run@)),
        },
{
    let raw = string_of(run.as_slice());
    let token = to_lowercase(raw.as_str());
    let cs = chars_of(token.as_str());
    if !has_min_bytes(&cs, TOKEN_MIN_LENGTH) {
        return None;
    }
    if check_numeric(cs.as_slice()) {
        return None;
    }
    if cs.len() >= HEXCODE_MIN_LENGTH && check_hexdigit(cs.as_slice()) {
        return None;
    }
    if check_dotdigit(cs.as_slice()) {
        return None;
    }
    Some(token)
}

/// The normalized tokens of `s`, in order of occurrence, duplicates kept.
pub fn extract_tokens(s: &str) -> (r: Vec<String>)
    ensures
        string_views(r@) == tokens_of(s@),
{
    tokenize(&chars_of(s))
}

/// The normalized tokens of the text `cs`, in order of occurrence.
pub fn tokenize(cs: &Vec<char>) -> (r: Vec<String>)
    ensures
        string_views(r@) == tokens_of(cs@),
{
    let ghost s = cs@;
    let mut out: Vec<String> = Vec::new();
    let mut cur: Vec<char> = Vec::new();
    let ghost mut done: Seq<Seq<char>> = Seq::empty();
    let mut i: usize = 0;
    while i < cs.len()
        invariant
            cs@ == s,
            i <= cs.len(),
            cur@.len() > 0 <==> (i > 0 && is_token_char(cs@[i - 1])),
            runs(cs@.take(i as int)) == (if cur@.len() > 0 {
                done.push(cur@)
            } else {
                done
            }),
            string_views(out@) == tokens_from(done),
        decreases cs.len() - i,
    {
        let c = cs[i];
        proof {
            assert(cs@.take(i + 1).drop_last() =~= cs@.take(i as int));
            assert(cs@.take(i + 1).last() == c);
            if i > 0 {
                assert(cs@.take(i + 1)[i - 1] == cs@[i - 1]);
            }
        }
        if is_token_char_exec(c) {
            proof {
                if cur@.len() > 0 {
                    assert(runs(cs@.take(i + 1)) =~= done.push(cur@.push(c)));
                } else {
                    assert(runs(cs@.take(i + 1)) =~= done.push(seq![c]));
                }
            }
            let ghost was_empty = cur@.len() == 0;
            cur.push(c);
            proof {
                if was_empty {
                    assert(cur@ =~= seq![c]);
                }
            }
        } else if cur.len() > 0 {
            assert(runs(cs@.take(i + 1)) == runs(cs@.take(i as int)));
            let ghost prev = out@;
            match normalize(&cur) {
                Some(t) => {
                    out.push(t);
                    proof {
                        assert(string_views(out@) =~= prev.map_values(
                            |t: String| t@,
                        ).push(lower_of(cur@)));
                    }
                },
                None => {},
            }
            proof {
                assert(done.push(cur@).drop_last() =~= done);
                done = done.push(cur@);
            }
            cur = Vec::new();
        } else {
            assert(runs(cs@.take(i + 1)) == runs(cs@.take(i as int)));
        }
        i = i + 1;
    }
    proof {
        assert(cs@.take(i as int) =~= cs@);
    }
    if cur.len() > 0 {
        let ghost prev = out@;
        match normalize(&cur) {
            Some(t) => {
                out.push(t);
                proof {
                    assert(string_views(out@) =~= string_views(prev).push(
                        lower_of(cur@),
                    ));
                }
            },
            None => {},
        }
        proof {
            assert(done.push(cur@).drop_last() =~= done);
            done = done.push(cur@);
        }
    }
    out
}

} // verus!
