use vstd::prelude::*;

verus! {

/// Each element is smaller than the next: sorted, without repeats.
pub open spec fn strictly_sorted(s: Seq<usize>) -> bool {
    forall|i: int, j: int| 0 <= i < j < s.len() ==> s[i] < s[j]
}

/// Whether `x` occurs in `v`.
pub fn contains_id(v: &Vec<usize>, x: usize) -> (r: bool)
    ensures
        r == v@.contains(x),
{
    let mut i: usize = 0;
    while i < v.len()
        invariant
            i <= v.len(),
            forall|k: int| 0 <= k < i ==> v@[k] != x,
        decreases v.len() - i,
    {
        if v[i] == x {
            return true;
        }
        i = i + 1;
    }
    false
}

/// Adds `x` to a strictly sorted list, where it is not yet.
pub fn insert_sorted(v: &mut Vec<usize>, x: usize)
    requires
        strictly_sorted(old(v)@),
    ensures
        strictly_sorted(final(v)@),
        forall|y: usize| #[trigger] final(v)@.contains(y) <==> (old(v)@.contains(y) || y == x),
{
    let mut i: usize = 0;
    while i < v.len() && v[i] < x
        invariant
            i <= v.len(),
            v@ == old(v)@,
            strictly_sorted(v@),
            forall|k: int| 0 <= k < i ==> v@[k] < x,
        decreases v.len() - i,
    {
        i = i + 1;
    }
    if i < v.len() && v[i] == x {
        return;
    }
    let ghost before = v@;
    v.insert(i, x);
    proof {
        assert forall|a: int, b: int| 0 <= a < b < v@.len() implies v@[a] < v@[b] by {
            if b < i {
            } else if a < i && b == i {
            } else if a < i {
                assert(v@[b] == before[b - 1]);
            } else if a == i {
                assert(v@[b] == before[b - 1]);
                assert(before[i as int] > x);
                assert(b - 1 == i || before[i as int] < before[b - 1]);
            } else {
                assert(v@[a] == before[a - 1]);
                assert(v@[b] == before[b - 1]);
            }
        }
        assert forall|y: usize| #[trigger] v@.contains(y) <==> (before.contains(y) || y == x) by {
            if v@.contains(y) {
                let k = choose|k: int| 0 <= k < v@.len() && v@[k] == y;
                if k < i {
                    assert(before[k] == y);
                } else if k > i {
                    assert(before[k - 1] == y);
                }
            }
            if before.contains(y) {
                let k = choose|k: int| 0 <= k < before.len() && before[k] == y;
                if k < i {
                    assert(v@[k] == y);
                } else {
                    assert(v@[k + 1] == y);
                }
            }
            if y == x {
                assert(v@[i as int] == x);
            }
        }
    }
}

/// The elements of `v`, in order, that also occur in `keep`.
pub fn retain_within(v: &Vec<usize>, keep: &Vec<usize>) -> (r: Vec<usize>)
    ensures
        r@ == v@.filter(|x: usize| keep@.contains(x)),
{
    let mut r: Vec<usize> = Vec::new();
    let mut i: usize = 0;
    while i < v.len()
        invariant
            i <= v.len(),
            r@ == v@.take(i as int).filter(|x: usize| keep@.contains(x)),
        decreases v.len() - i,
    {
        let x = v[i];
        proof {
            assert(v@.take(i + 1).drop_last() =~= v@.take(i as int));
            reveal(Seq::filter);
        }
        if contains_id(keep, x) {
            r.push(x);
        }
        i = i + 1;
    }
    assert(v@.take(i as int) =~= v@);
    r
}

} // verus!

verus! {

/// What a filter keeps is what the list holds and the predicate accepts.
pub proof fn lemma_filter_contains<A>(s: Seq<A>, p: spec_fn(A) -> bool, x: A)
    ensures
        s.filter(p).contains(x) <==> s.contains(x) && p(x),
    decreases s.len(),
{
    reveal(Seq::filter);
    if s.len() > 0 {
        lemma_filter_contains(s.drop_last(), p, x);
        if s.contains(x) && p(x) {
            let k = choose|k: int| 0 <= k < s.len() && s[k] == x;
            if k < s.len() - 1 {
                assert(s.drop_last()[k] == x);
            }
        }
        if s.filter(p).contains(x) {
            let f = s.drop_last().filter(p);
            if p(s.last()) && s.filter(p)[s.filter(p).len() - 1] == x {
                assert(s[s.len() - 1] == x);
            } else {
                let k = choose|k: int| 0 <= k < s.filter(p).len() && s.filter(p)[k] == x;
                if p(s.last()) && k == f.len() {
                } else {
                    assert(f[k] == x);
                    assert(f.contains(x));
                    let j = choose|j: int| 0 <= j < s.drop_last().len() && s.drop_last()[j] == x;
                    assert(s[j] == x);
                }
            }
        }
    }
}

/// Filtering a list without repeats gives a list without repeats.
pub proof fn lemma_filter_no_duplicates<A>(s: Seq<A>, p: spec_fn(A) -> bool)
    requires
        s.no_duplicates(),
    ensures
        s.filter(p).no_duplicates(),
    decreases s.len(),
{
    reveal(Seq::filter);
    if s.len() > 0 {
        let d = s.drop_last();
        assert(d.no_duplicates());
        lemma_filter_no_duplicates(d, p);
        if p(s.last()) {
            lemma_filter_contains(d, p, s.last());
            if d.contains(s.last()) {
                let k = choose|k: int| 0 <= k < d.len() && d[k] == s.last();
                assert(s[k] == s[s.len() - 1]);
            }
            let f = d.filter(p);
            assert forall|a: int, b: int|
                0 <= a < b < f.push(s.last()).len() implies f.push(s.last())[a] != f.push(
                s.last(),
            )[b] by {
                if b == f.len() {
                    assert(f[a] == f.push(s.last())[a]);
                    assert(f.contains(f[a]));
                }
            }
        }
    }
}

} // verus!

verus! {

/// Two strictly sorted lists with the same elements are the same list.
pub proof fn lemma_sorted_unique(a: Seq<usize>, b: Seq<usize>)
    requires
        strictly_sorted(a),
        strictly_sorted(b),
        forall|x: usize| a.contains(x) <==> b.contains(x),
    ensures
        a == b,
    decreases a.len(),
{
    if a.len() == 0 {
        if b.len() > 0 {
            assert(b.contains(b[0]));
        }
        assert(a =~= b);
    } else {
        assert(a.contains(a[0]));
        let j = choose|j: int| 0 <= j < b.len() && b[j] == a[0];
        assert(b.contains(b[0]));
        let i = choose|i: int| 0 <= i < a.len() && a[i] == b[0];
        assert(a[0] == b[0]) by {
            if i > 0 {
                assert(a[0] < a[i]);
            }
            if j > 0 {
                assert(b[0] < b[j]);
            }
        }
        let a1 = a.drop_first();
        let b1 = b.drop_first();
        assert forall|x: usize| a1.contains(x) <==> b1.contains(x) by {
            if a1.contains(x) {
                let k = choose|k: int| 0 <= k < a1.len() && a1[k] == x;
                assert(a[k + 1] == x && a[0] < a[k + 1]);
                assert(b.contains(x));
                let q = choose|q: int| 0 <= q < b.len() && b[q] == x;
                assert(q != 0);
                assert(b1[q - 1] == x);
            }
            if b1.contains(x) {
                let k = choose|k: int| 0 <= k < b1.len() && b1[k] == x;
                assert(b[k + 1] == x && b[0] < b[k + 1]);
                assert(a.contains(x));
                let q = choose|q: int| 0 <= q < a.len() && a[q] == x;
                assert(q != 0);
                assert(a1[q - 1] == x);
            }
        }
        lemma_sorted_unique(a1, b1);
        assert(a =~= b) by {
            assert forall|k: int| 0 <= k < a.len() implies a[k] == b[k] by {
                if k > 0 {
                    assert(a[k] == a1[k - 1]);
                    assert(b[k] == b1[k - 1]);
                }
            }
        }
    }
}

} // verus!
