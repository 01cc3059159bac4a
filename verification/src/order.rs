//! The order strings are sorted in, and the two sorts the crate needs: one that keeps every
//! element, and one that keeps each element once.
//!
//! Strings compare `char` by `char`, by code point, and a proper prefix comes first. That is the
//! order of `String`'s `Ord`, since UTF-8 keeps code-point order byte for byte.

use crate::text::views;
use vstd::prelude::*;

verus! {

broadcast use vstd::seq_lib::group_to_multiset_ensures;

/// `a` sorts strictly before `b`.
pub open spec fn lex_lt(a: Seq<char>, b: Seq<char>) -> bool
    decreases a.len(),
{
    if a.len() == 0 {
        b.len() > 0
    } else if b.len() == 0 {
        false
    } else if a[0] != b[0] {
        (a[0] as u32) < (b[0] as u32)
    } else {
        lex_lt(a.drop_first(), b.drop_first())
    }
}

pub open spec fn lex_le(a: Seq<char>, b: Seq<char>) -> bool {
    a == b || lex_lt(a, b)
}

/// Every element is at most the next.
pub open spec fn sorted(s: Seq<Seq<char>>) -> bool {
    forall|i: int, j: int| 0 <= i < j < s.len() ==> lex_le(s[i], s[j])
}

/// Every element is below the next: sorted, and nothing twice.
pub open spec fn strictly_sorted(s: Seq<Seq<char>>) -> bool {
    forall|i: int, j: int| 0 <= i < j < s.len() ==> lex_lt(s[i], s[j])
}

pub proof fn lemma_lex_irreflexive(a: Seq<char>)
    ensures
        !lex_lt(a, a),
    decreases a.len(),
{
    if a.len() > 0 {
        lemma_lex_irreflexive(a.drop_first());
    }
}

pub proof fn lemma_lex_total(a: Seq<char>, b: Seq<char>)
    ensures
        a == b || lex_lt(a, b) || lex_lt(b, a),
    decreases a.len(),
{
    if a.len() > 0 && b.len() > 0 && a[0] == b[0] {
        lemma_lex_total(a.drop_first(), b.drop_first());
        if a.drop_first() == b.drop_first() {
            assert(a =~= seq![a[0]] + a.drop_first());
            assert(b =~= seq![b[0]] + b.drop_first());
        }
    } else if a.len() == 0 && b.len() == 0 {
        assert(a =~= b);
    } else if a.len() > 0 && b.len() > 0 {
        if (a[0] as u32) == (b[0] as u32) {
            vstd::utf8::char_u32_cast(a[0], a[0] as u32);
            vstd::utf8::char_u32_cast(b[0], b[0] as u32);
        }
    }
}

pub proof fn lemma_lex_asymmetric(a: Seq<char>, b: Seq<char>)
    ensures
        !(lex_lt(a, b) && lex_lt(b, a)),
    decreases a.len(),
{
    if a.len() > 0 && b.len() > 0 && a[0] == b[0] {
        lemma_lex_asymmetric(a.drop_first(), b.drop_first());
    }
}

pub proof fn lemma_lex_transitive(a: Seq<char>, b: Seq<char>, c: Seq<char>)
    requires
        lex_lt(a, b),
        lex_lt(b, c),
    ensures
        lex_lt(a, c),
    decreases a.len(),
{
    if a.len() > 0 && b.len() > 0 && c.len() > 0 && a[0] == b[0] && b[0] == c[0] {
        lemma_lex_transitive(a.drop_first(), b.drop_first(), c.drop_first());
    }
}

/// Whether `a` sorts strictly before `b`.
pub fn lex_lt_exec(a: &[char], b: &[char]) -> (r: bool)
    ensures
        r == lex_lt(a@, b@),
{
    let mut i: usize = 0;
    assert(a@.skip(0) =~= a@);
    assert(b@.skip(0) =~= b@);
    loop
        invariant
            i <= a@.len(),
            i <= b@.len(),
            lex_lt(a@.skip(i as int), b@.skip(i as int)) == lex_lt(a@, b@),
        decreases a@.len() - i,
    {
        if i == a.len() {
            return i < b.len();
        }
        if i == b.len() {
            return false;
        }
        if a[i] != b[i] {
            return (a[i] as u32) < (b[i] as u32);
        }
        assert(a@.skip(i as int).drop_first() =~= a@.skip(i + 1));
        assert(b@.skip(i as int).drop_first() =~= b@.skip(i + 1));
        i += 1;
    }
}

/// The place at which `x` goes into the sorted `out`: after everything below it.
fn insertion_point(out: &Vec<Vec<char>>, x: &Vec<char>) -> (k: usize)
    requires
        sorted(views(out@)),
    ensures
        k <= out@.len(),
        forall|i: int| 0 <= i < k ==> lex_lt(out@[i]@, x@),
        forall|i: int| k <= i < out@.len() ==> !lex_lt(out@[i]@, x@),
{
    let mut k: usize = 0;
    while k < out.len() && lex_lt_exec(&out[k], x)
        invariant
            k <= out@.len(),
            sorted(views(out@)),
            forall|i: int| 0 <= i < k ==> lex_lt(out@[i]@, x@),
        decreases out.len() - k,
    {
        k += 1;
    }
    assert forall|i: int| k <= i < out@.len() implies !lex_lt(out@[i]@, x@) by {
        assert(views(out@)[k as int] == out@[k as int]@);
        assert(views(out@)[i] == out@[i]@);
        if i > k && lex_lt(out@[i]@, x@) {
            assert(lex_le(out@[k as int]@, out@[i]@));
            if out@[k as int]@ != out@[i]@ {
                lemma_lex_transitive(out@[k as int]@, out@[i]@, x@);
            }
        }
    }
    k
}

proof fn lemma_insert_multiset(s: Seq<Seq<char>>, k: int, x: Seq<char>)
    requires
        0 <= k <= s.len(),
    ensures
        s.insert(k, x).to_multiset() =~= s.to_multiset().insert(x),
{
    let t = s.insert(k, x);
    assert(t.remove(k) =~= s);
    assert(t[k] == x);
    assert(t.remove(k).to_multiset() =~= t.to_multiset().remove(x));
    assert(t.to_multiset().count(x) > 0) by {
        assert(t.contains(x));
    }
}

proof fn lemma_views_insert(v: Seq<Vec<char>>, k: int, x: Vec<char>)
    requires
        0 <= k <= v.len(),
    ensures
        views(v.insert(k, x)) =~= views(v).insert(k, x@),
{
}

/// `v` sorted: the same strings, each as often as before, in order.
pub fn sort_exec(v: Vec<Vec<char>>) -> (r: Vec<Vec<char>>)
    ensures
        sorted(views(r@)),
        views(r@).to_multiset() == views(v@).to_multiset(),
{
    let mut out: Vec<Vec<char>> = Vec::new();
    let mut i: usize = 0;
    assert(views(out@) =~= views(v@).take(0));
    while i < v.len()
        invariant
            i <= v@.len(),
            sorted(views(out@)),
            views(out@).to_multiset() == views(v@).take(i as int).to_multiset(),
        decreases v.len() - i,
    {
        let x = v[i].clone();
        let k = insertion_point(&out, &x);
        let ghost before = out@;
        let ghost xv = x;
        out.insert(k, x);
        proof {
            let x = xv;
            lemma_views_insert(before, k as int, x);
            lemma_insert_multiset(views(before), k as int, x@);
            assert(views(v@).take(i + 1) =~= views(v@).take(i as int).push(x@));
            assert forall|a: int, b: int| 0 <= a < b < out@.len() implies lex_le(
                views(out@)[a],
                views(out@)[b],
            ) by {
                let va = views(out@)[a];
                let vb = views(out@)[b];
                if a < k && b == k {
                } else if a == k && b > k {
                    lemma_lex_total(before[b - 1]@, x@);
                } else if a < k && b > k {
                    assert(lex_lt(before[a]@, x@));
                    lemma_lex_total(before[b - 1]@, x@);
                    if before[b - 1]@ != x@ {
                        lemma_lex_transitive(before[a]@, x@, before[b - 1]@);
                    }
                } else if a < k && b < k {
                    assert(views(before)[a] == va);
                    assert(views(before)[b] == vb);
                } else {
                    assert(views(before)[a - 1] == va);
                    assert(views(before)[b - 1] == vb);
                }
            }
        }
        i += 1;
    }
    assert(views(v@).take(v@.len() as int) =~= views(v@));
    out
}

/// The distinct strings of `v`, sorted: what sorting and then dropping repeats leaves.
pub fn sort_unique_exec(v: Vec<Vec<char>>) -> (r: Vec<Vec<char>>)
    ensures
        strictly_sorted(views(r@)),
        forall|x: Seq<char>| views(r@).contains(x) <==> views(v@).contains(x),
{
    let mut out: Vec<Vec<char>> = Vec::new();
    let mut i: usize = 0;
    while i < v.len()
        invariant
            i <= v@.len(),
            strictly_sorted(views(out@)),
            forall|x: Seq<char>| views(out@).contains(x) <==> views(v@).take(i as int).contains(x),
        decreases v.len() - i,
    {
        let x = v[i].clone();
        proof {
            assert forall|a: int, b: int| 0 <= a < b < out@.len() implies lex_le(
                views(out@)[a],
                views(out@)[b],
            ) by {}
        }
        let k = insertion_point(&out, &x);
        let ghost before = out@;
        assert(views(v@).take(i + 1) =~= views(v@).take(i as int).push(x@));
        assert forall|y: Seq<char>| views(v@).take(i + 1).contains(y) <==> (views(v@).take(
            i as int,
        ).contains(y) || y == x@) by {
            let t = views(v@).take(i + 1);
            let u = views(v@).take(i as int);
            if t.contains(y) {
                let j = choose|j: int| 0 <= j < t.len() && t[j] == y;
                if j < i {
                    assert(u[j] == y);
                }
            }
            if u.contains(y) {
                let j = choose|j: int| 0 <= j < u.len() && u[j] == y;
                assert(t[j] == y);
            }
            if y == x@ {
                assert(t[i as int] == y);
            }
        }
        if k < out.len() && crate::text::same(&out[k], &x) {
            assert(views(before)[k as int] == x@);
            assert(views(before).contains(x@));
            assert forall|y: Seq<char>| views(out@).contains(y) <==> views(v@).take(i + 1).contains(
                y,
            ) by {
                if y == x@ {
                }
            }
        } else {
            let ghost xv = x;
            out.insert(k, x);
            proof {
                let x = xv;
                lemma_views_insert(before, k as int, x);
                if k < before.len() {
                    lemma_lex_total(before[k as int]@, x@);
                    assert(views(before)[k as int] == before[k as int]@);
                    assert(lex_lt(x@, before[k as int]@));
                }
                assert forall|a: int, b: int| 0 <= a < b < out@.len() implies lex_lt(
                    views(out@)[a],
                    views(out@)[b],
                ) by {
                    if a < k && b == k {
                    } else if a == k && b > k {
                        if b - 1 > k {
                            assert(views(before)[k as int] == before[k as int]@);
                            assert(views(before)[b - 1] == before[b - 1]@);
                            lemma_lex_transitive(x@, before[k as int]@, before[b - 1]@);
                        }
                    } else if a < k && b > k {
                        if b - 1 > k {
                            assert(views(before)[k as int] == before[k as int]@);
                            assert(views(before)[b - 1] == before[b - 1]@);
                            lemma_lex_transitive(x@, before[k as int]@, before[b - 1]@);
                        }
                        lemma_lex_transitive(before[a]@, x@, before[b - 1]@);
                    } else if a < k && b < k {
                        assert(views(before)[a] == views(out@)[a]);
                        assert(views(before)[b] == views(out@)[b]);
                    } else {
                        assert(views(before)[a - 1] == views(out@)[a]);
                        assert(views(before)[b - 1] == views(out@)[b]);
                    }
                }
                assert forall|y: Seq<char>| views(out@).contains(y) <==> views(before).contains(y)
                    || y == x@ by {
                    if views(out@).contains(y) {
                        let j = choose|j: int| 0 <= j < views(out@).len() && views(out@)[j] == y;
                        if j < k {
                            assert(views(before)[j] == y);
                        } else if j > k {
                            assert(views(before)[j - 1] == y);
                        }
                    }
                    if views(before).contains(y) {
                        let j = choose|j: int| 0 <= j < views(before).len() && views(before)[j] == y;
                        if j < k {
                            assert(views(out@)[j] == y);
                        } else {
                            assert(views(out@)[j + 1] == y);
                        }
                    }
                    if y == x@ {
                        assert(views(out@)[k as int] == y);
                    }
                }
                assert(forall|y: Seq<char>| views(before).contains(y) <==> views(v@).take(
                    i as int,
                ).contains(y));
                assert forall|y: Seq<char>| views(out@).contains(y) <==> views(v@).take(
                    i + 1,
                ).contains(y) by {
                    assert(views(out@).contains(y) <==> views(before).contains(y) || y == x@);
                    assert(views(before).contains(y) <==> views(v@).take(i as int).contains(y));
                    assert(views(v@).take(i + 1).contains(y) <==> (views(v@).take(
                        i as int,
                    ).contains(y) || y == x@));
                }
            }
        }
        i += 1;
    }
    assert(views(v@).take(v@.len() as int) =~= views(v@));
    out
}

/// `s` sorted: the one arrangement of its elements, each as often as in `s`, that is sorted.
pub open spec fn sort_seq(s: Seq<Seq<char>>) -> Seq<Seq<char>> {
    choose|t: Seq<Seq<char>>| sorted(t) && t.to_multiset() == s.to_multiset()
}

/// The distinct elements of `s` in order: the one strictly sorted run that holds what `s` holds.
pub open spec fn sorted_set(s: Seq<Seq<char>>) -> Seq<Seq<char>> {
    choose|t: Seq<Seq<char>>| strictly_sorted(t) && forall|x: Seq<char>| t.contains(x) <==> s.contains(x)
}

proof fn lemma_sorted_drop_first(a: Seq<Seq<char>>)
    requires
        sorted(a),
        a.len() > 0,
    ensures
        sorted(a.drop_first()),
{
    assert forall|i: int, j: int| 0 <= i < j < a.drop_first().len() implies lex_le(
        a.drop_first()[i],
        a.drop_first()[j],
    ) by {
        assert(a.drop_first()[i] == a[i + 1]);
        assert(a.drop_first()[j] == a[j + 1]);
    }
}

/// Two sorted runs with the same elements, each as often, are the same run.
pub proof fn lemma_sorted_unique(a: Seq<Seq<char>>, b: Seq<Seq<char>>)
    requires
        sorted(a),
        sorted(b),
        a.to_multiset() == b.to_multiset(),
    ensures
        a == b,
    decreases a.len(),
{
    assert(a.len() == a.to_multiset().len());
    assert(b.len() == b.to_multiset().len());
    if a.len() == 0 {
        assert(a =~= b);
    } else {
        assert(a.contains(a[0]));
        assert(a.to_multiset().count(a[0]) > 0);
        assert(b.contains(a[0]));
        let j = choose|j: int| 0 <= j < b.len() && b[j] == a[0];
        assert(lex_le(b[0], a[0])) by {
            if j > 0 {
            }
        }
        assert(b.contains(b[0]));
        assert(b.to_multiset().count(b[0]) > 0);
        assert(a.contains(b[0]));
        let i = choose|i: int| 0 <= i < a.len() && a[i] == b[0];
        assert(lex_le(a[0], b[0])) by {
            if i > 0 {
            }
        }
        lemma_lex_asymmetric(a[0], b[0]);
        assert(a[0] == b[0]);
        assert(a.remove(0) =~= a.drop_first());
        assert(b.remove(0) =~= b.drop_first());
        assert(a.remove(0).to_multiset() =~= a.to_multiset().remove(a[0]));
        assert(b.remove(0).to_multiset() =~= b.to_multiset().remove(b[0]));
        lemma_sorted_drop_first(a);
        lemma_sorted_drop_first(b);
        lemma_sorted_unique(a.drop_first(), b.drop_first());
        assert(a =~= seq![a[0]] + a.drop_first());
        assert(b =~= seq![b[0]] + b.drop_first());
    }
}

/// Two strictly sorted runs that hold the same elements are the same run.
pub proof fn lemma_strictly_sorted_unique(a: Seq<Seq<char>>, b: Seq<Seq<char>>)
    requires
        strictly_sorted(a),
        strictly_sorted(b),
        forall|x: Seq<char>| a.contains(x) <==> b.contains(x),
    ensures
        a == b,
    decreases a.len(),
{
    if a.len() == 0 {
        if b.len() > 0 {
            assert(b.contains(b[0]));
        }
        assert(a =~= b);
    } else {
        assert(a.contains(a[0]));
        let j = choose|j: int| 0 <= j < b.len() && b[j] == a[0];
        assert(b.contains(b[0]));
        let i = choose|i: int| 0 <= i < a.len() && a[i] == b[0];
        assert(lex_le(b[0], a[0])) by {
            if j > 0 {
            }
        }
        assert(lex_le(a[0], b[0])) by {
            if i > 0 {
            }
        }
        lemma_lex_asymmetric(a[0], b[0]);
        let ra = a.drop_first();
        let rb = b.drop_first();
        assert(strictly_sorted(ra)) by {
            assert forall|p: int, q: int| 0 <= p < q < ra.len() implies lex_lt(ra[p], ra[q]) by {
                assert(ra[p] == a[p + 1]);
                assert(ra[q] == a[q + 1]);
            }
        }
        assert(strictly_sorted(rb)) by {
            assert forall|p: int, q: int| 0 <= p < q < rb.len() implies lex_lt(rb[p], rb[q]) by {
                assert(rb[p] == b[p + 1]);
                assert(rb[q] == b[q + 1]);
            }
        }
        assert forall|x: Seq<char>| ra.contains(x) <==> rb.contains(x) by {
            if ra.contains(x) {
                let p = choose|p: int| 0 <= p < ra.len() && ra[p] == x;
                assert(a[p + 1] == x);
                assert(a.contains(x));
                lemma_lex_irreflexive(x);
                assert(x != b[0]);
                let q = choose|q: int| 0 <= q < b.len() && b[q] == x;
                assert(q != 0);
                assert(rb[q - 1] == x);
            }
            if rb.contains(x) {
                let p = choose|p: int| 0 <= p < rb.len() && rb[p] == x;
                assert(b[p + 1] == x);
                assert(b.contains(x));
                lemma_lex_irreflexive(x);
                assert(x != a[0]);
                let q = choose|q: int| 0 <= q < a.len() && a[q] == x;
                assert(q != 0);
                assert(ra[q - 1] == x);
            }
        }
        lemma_strictly_sorted_unique(ra, rb);
        assert(a =~= seq![a[0]] + ra);
        assert(b =~= seq![b[0]] + rb);
    }
}

/// What sorting `v` gives, as a value.
pub fn sort_strings(v: Vec<Vec<char>>) -> (r: Vec<Vec<char>>)
    ensures
        views(r@) == sort_seq(views(v@)),
        sorted(views(r@)),
        views(r@).to_multiset() == views(v@).to_multiset(),
{
    let r = sort_exec(v);
    proof {
        let t = sort_seq(views(v@));
        assert(sorted(t) && t.to_multiset() == views(v@).to_multiset());
        lemma_sorted_unique(views(r@), t);
    }
    r
}

/// What sorting `v` and dropping repeats gives, as a value.
pub fn sorted_set_of(v: Vec<Vec<char>>) -> (r: Vec<Vec<char>>)
    ensures
        views(r@) == sorted_set(views(v@)),
        strictly_sorted(views(r@)),
        forall|x: Seq<char>| views(r@).contains(x) <==> views(v@).contains(x),
{
    let r = sort_unique_exec(v);
    proof {
        let t = sorted_set(views(v@));
        assert(strictly_sorted(t) && forall|x: Seq<char>| t.contains(x) <==> views(v@).contains(x));
        lemma_strictly_sorted_unique(views(r@), t);
    }
    r
}


/// Nothing, sorted and each once, is nothing.
pub proof fn lemma_sorted_set_of_empty()
    ensures
        sorted_set(Seq::<Seq<char>>::empty()).len() == 0,
{
    let e = Seq::<Seq<char>>::empty();
    assert(strictly_sorted(e));
    let t = sorted_set(e);
    assert(strictly_sorted(t) && forall|x: Seq<char>| t.contains(x) <==> e.contains(x));
    lemma_strictly_sorted_unique(t, e);
}


/// Any sequence has a sorted arrangement, so `sort_seq` is one: sorted, with what `s` holds.
pub proof fn lemma_sort_seq(s: Seq<Seq<char>>)
    ensures
        sorted(sort_seq(s)),
        sort_seq(s).to_multiset() == s.to_multiset(),
        forall|x: Seq<char>| #[trigger] sort_seq(s).contains(x) ==> s.contains(x),
{
    let leq = |a: Seq<char>, b: Seq<char>| lex_le(a, b);
    assert(vstd::relations::total_ordering(leq)) by {
        assert forall|a: Seq<char>| #[trigger] leq(a, a) by {}
        assert forall|a: Seq<char>, b: Seq<char>| #[trigger] leq(a, b) && #[trigger] leq(b, a)
            implies a == b by {
            lemma_lex_asymmetric(a, b);
        }
        assert forall|a: Seq<char>, b: Seq<char>, c: Seq<char>|
            #[trigger] leq(a, b) && #[trigger] leq(b, c) implies leq(a, c) by {
            if lex_lt(a, b) && lex_lt(b, c) {
                lemma_lex_transitive(a, b, c);
            }
        }
        assert forall|a: Seq<char>, b: Seq<char>| #[trigger] leq(a, b) || leq(b, a) by {
            lemma_lex_total(a, b);
        }
    }
    s.lemma_sort_by_ensures(leq);
    let w = s.sort_by(leq);
    assert(sorted(w)) by {
        assert forall|i: int, j: int| 0 <= i < j < w.len() implies lex_le(w[i], w[j]) by {
            assert(leq(w[i], w[j]));
        }
    }
    let t = sort_seq(s);
    assert(sorted(t) && t.to_multiset() == s.to_multiset());
    assert forall|x: Seq<char>| #[trigger] t.contains(x) implies s.contains(x) by {
        assert(t.to_multiset().count(x) > 0);
    }
}

} // verus!
