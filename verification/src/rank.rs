use vstd::prelude::*;
use vstd::set_lib::{lemma_int_range, lemma_subset_equality, set_int_range};

use crate::lex::{
    compare, lemma_lex_asymmetric, lemma_lex_irreflexive, lemma_lex_total, lemma_lex_transitive, lex_lt, Cmp,
};

verus! {

/// `a` comes no later than `b` when listing by count (descending), then by name
/// (ascending).
pub open spec fn ranks_le(a: (u64, Seq<char>), b: (u64, Seq<char>)) -> bool {
    a.0 > b.0 || (a.0 == b.0 && (a.1 == b.1 || lex_lt(a.1, b.1)))
}

pub proof fn lemma_ranks_total(a: (u64, Seq<char>), b: (u64, Seq<char>))
    ensures
        ranks_le(a, b) || ranks_le(b, a),
{
    lemma_lex_total(a.1, b.1);
}

pub proof fn lemma_ranks_transitive(a: (u64, Seq<char>), b: (u64, Seq<char>), c: (u64, Seq<char>))
    requires
        ranks_le(a, b),
        ranks_le(b, c),
    ensures
        ranks_le(a, c),
{
    if a.0 == b.0 && b.0 == c.0 && a.1 != b.1 && b.1 != c.1 {
        lemma_lex_transitive(a.1, b.1, c.1);
    }
}

pub proof fn lemma_ranks_antisymmetric(a: (u64, Seq<char>), b: (u64, Seq<char>))
    requires
        ranks_le(a, b),
        ranks_le(b, a),
    ensures
        a == b,
{
    if a.1 != b.1 {
        lemma_lex_asymmetric(a.1, b.1);
    }
}

/// The count and name of every item.
pub open spec fn items_view(items: Seq<(u64, Vec<char>)>) -> Seq<(u64, Seq<char>)> {
    items.map_values(|x: (u64, Vec<char>)| (x.0, x.1@))
}

/// `order` lists each index of `items` once, by count (descending), then name.
pub open spec fn is_ranking(items: Seq<(u64, Seq<char>)>, order: Seq<usize>) -> bool {
    &&& order.len() == items.len()
    &&& order.no_duplicates()
    &&& forall|p: int| 0 <= p < order.len() ==> #[trigger] order[p] < items.len()
    &&& forall|p: int, q: int|
        0 <= p < q < order.len() ==> ranks_le(
            #[trigger] items[order[p] as int],
            #[trigger] items[order[q] as int],
        )
}

fn ranks_le_exec(a: &(u64, Vec<char>), b: &(u64, Vec<char>)) -> (r: bool)
    ensures
        r == ranks_le((a.0, a.1@), (b.0, b.1@)),
{
    if a.0 > b.0 {
        true
    } else if a.0 < b.0 {
        false
    } else {
        match compare(a.1.as_slice(), b.1.as_slice()) {
            Cmp::Greater => false,
            _ => true,
        }
    }
}

/// No two items are alike.
pub open spec fn distinct_items(items: Seq<(u64, Seq<char>)>) -> bool {
    forall|i: int, j: int| 0 <= i < items.len() && 0 <= j < items.len() && i != j ==> items[i] != items[j]
}

/// The listing order of distinct items (there is exactly one: see `lemma_ranking_unique`).
pub open spec fn ranked(items: Seq<(u64, Seq<char>)>) -> Seq<usize> {
    choose|o: Seq<usize>| is_ranking(items, o)
}

/// A listing names every index.
pub proof fn lemma_ranking_covers(items: Seq<(u64, Seq<char>)>, o: Seq<usize>, k: int)
    requires
        is_ranking(items, o),
        0 <= k < items.len(),
    ensures
        exists|p: int| 0 <= p < o.len() && o[p] as int == k,
{
    let n = items.len() as int;
    let oi = o.map_values(|x: usize| x as int);
    assert(oi.no_duplicates()) by {
        assert forall|p: int, q: int| 0 <= p < oi.len() && 0 <= q < oi.len() && p != q implies oi[p] != oi[q] by {
            assert(o[p] != o[q]);
        }
    }
    oi.unique_seq_to_set();
    lemma_int_range(0, n);
    assert(oi.to_set().subset_of(set_int_range(0, n))) by {
        assert forall|x: int| oi.to_set().contains(x) implies set_int_range(0, n).contains(x) by {
            let p = choose|p: int| 0 <= p < oi.len() && oi[p] == x;
            assert(o[p] < items.len());
        }
    }
    lemma_subset_equality(oi.to_set(), set_int_range(0, n));
    assert(set_int_range(0, n).contains(k));
    assert(oi.to_set().contains(k));
    let p = choose|p: int| 0 <= p < oi.len() && oi[p] == k;
    assert(o[p] as int == k);
}

proof fn lemma_ranking_prefix(items: Seq<(u64, Seq<char>)>, o1: Seq<usize>, o2: Seq<usize>, p: int)
    requires
        is_ranking(items, o1),
        is_ranking(items, o2),
        distinct_items(items),
        0 <= p <= o1.len(),
    ensures
        forall|q: int| 0 <= q < p ==> o1[q] == o2[q],
    decreases p,
{
    if p > 0 {
        let t = p - 1;
        lemma_ranking_prefix(items, o1, o2, t);
        let a = o1[t];
        let b = o2[t];
        lemma_ranking_covers(items, o1, b as int);
        lemma_ranking_covers(items, o2, a as int);
        let q = choose|q: int| 0 <= q < o1.len() && o1[q] as int == b as int;
        let r = choose|r: int| 0 <= r < o2.len() && o2[r] as int == a as int;
        if q < t {
            assert(o1[q] == o2[q]);
            assert(false);
        }
        if r < t {
            assert(o1[r] == o2[r]);
            assert(false);
        }
        if q != t && r != t {
            assert(ranks_le(items[o1[t] as int], items[o1[q] as int]));
            assert(ranks_le(items[o2[t] as int], items[o2[r] as int]));
            lemma_ranks_antisymmetric(items[a as int], items[b as int]);
        }
    }
}

/// Distinct items have one listing only.
pub proof fn lemma_ranking_unique(items: Seq<(u64, Seq<char>)>, o1: Seq<usize>, o2: Seq<usize>)
    requires
        is_ranking(items, o1),
        is_ranking(items, o2),
        distinct_items(items),
    ensures
        o1 == o2,
{
    lemma_ranking_prefix(items, o1, o2, o1.len() as int);
    assert(o1 =~= o2);
}

/// The order in which to list the items: by count (descending), then by name.
pub fn rank(items: &Vec<(u64, Vec<char>)>) -> (order: Vec<usize>)
    ensures
        is_ranking(items_view(items@), order@),
        distinct_items(items_view(items@)) ==> order@ == ranked(items_view(items@)),
{
    let ghost iv = items_view(items@);
    let mut order: Vec<usize> = Vec::new();
    let mut i: usize = 0;
    while i < items.len()
        invariant
            i <= items@.len(),
            iv == items_view(items@),
            order@.len() == i,
            order@.no_duplicates(),
            forall|p: int| 0 <= p < order@.len() ==> #[trigger] order@[p] < i,
            forall|p: int, q: int|
                0 <= p < q < order@.len() ==> ranks_le(
                    #[trigger] iv[order@[p] as int],
                    #[trigger] iv[order@[q] as int],
                ),
        decreases items@.len() - i,
    {
        let mut lo: usize = 0;
        let mut hi: usize = order.len();
        while lo < hi
            invariant
                i < items@.len(),
                iv == items_view(items@),
                order@.len() == i,
                forall|p: int| 0 <= p < order@.len() ==> #[trigger] order@[p] < i,
                lo <= hi <= order@.len(),
                forall|p: int| 0 <= p < lo ==> ranks_le(#[trigger] iv[order@[p] as int], iv[i as int]),
                forall|p: int| hi <= p < order@.len() ==> ranks_le(iv[i as int], #[trigger] iv[order@[p] as int]),
                forall|p: int, q: int|
                    0 <= p < q < order@.len() ==> ranks_le(
                        #[trigger] iv[order@[p] as int],
                        #[trigger] iv[order@[q] as int],
                    ),
            decreases hi - lo,
        {
            let mid = lo + (hi - lo) / 2;
            let m = order[mid];
            if ranks_le_exec(&items[m], &items[i]) {
                assert forall|p: int| 0 <= p < mid + 1 implies ranks_le(#[trigger] iv[order@[p] as int], iv[i as int]) by {
                    if p < mid {
                        lemma_ranks_transitive(iv[order@[p] as int], iv[order@[mid as int] as int], iv[i as int]);
                    }
                }
                lo = mid + 1;
            } else {
                proof { lemma_ranks_total(iv[m as int], iv[i as int]); }
                assert forall|p: int| mid <= p < order@.len() implies ranks_le(iv[i as int], #[trigger] iv[order@[p] as int]) by {
                    if p > mid {
                        lemma_ranks_transitive(iv[i as int], iv[order@[mid as int] as int], iv[order@[p] as int]);
                    }
                }
                hi = mid;
            }
        }
        let ghost old_order = order@;
        order.insert(lo, i);
        assert forall|p: int, q: int|
            0 <= p < q < order@.len() implies ranks_le(
                #[trigger] iv[order@[p] as int],
                #[trigger] iv[order@[q] as int],
            ) by {
            if q < lo {
            } else if q == lo {
            } else if p < lo {
                assert(order@[q] == old_order[q - 1]);
                lemma_ranks_transitive(iv[order@[p] as int], iv[i as int], iv[order@[q] as int]);
            } else if p == lo {
                assert(order@[q] == old_order[q - 1]);
            } else {
                assert(order@[q] == old_order[q - 1]);
                assert(order@[p] == old_order[p - 1]);
            }
        }
        assert forall|p: int| 0 <= p < order@.len() implies #[trigger] order@[p] < i + 1 by {
            if p < lo {
            } else if p > lo {
                assert(order@[p] == old_order[p - 1]);
            }
        }
        assert(order@.no_duplicates()) by {
            assert forall|p: int, q: int| 0 <= p < order@.len() && 0 <= q < order@.len() && p != q implies order@[p] != order@[q] by {
                if p != lo && q != lo {
                    let op = if p < lo { p } else { p - 1 };
                    let oq = if q < lo { q } else { q - 1 };
                    assert(order@[p] == old_order[op]);
                    assert(order@[q] == old_order[oq]);
                } else if p == lo {
                    let oq = if q < lo { q } else { q - 1 };
                    assert(order@[q] == old_order[oq]);
                } else {
                    let op = if p < lo { p } else { p - 1 };
                    assert(order@[p] == old_order[op]);
                }
            }
        }
        i += 1;
    }
    proof {
        if distinct_items(iv) {
            lemma_ranking_unique(iv, order@, ranked(iv));
        }
    }
    order
}


/// `a` sorts no later than `b`.
pub open spec fn lex_le(a: Seq<char>, b: Seq<char>) -> bool {
    a == b || lex_lt(a, b)
}

/// Ascending order.
pub open spec fn lex_sorted(s: Seq<Seq<char>>) -> bool {
    forall|i: int, j: int| 0 <= i < j < s.len() ==> lex_le(#[trigger] s[i], #[trigger] s[j])
}

/// The names in ascending order (`sort_unstable` on the names).
pub open spec fn sorted_names(names: Seq<Seq<char>>) -> Seq<Seq<char>> {
    choose|s: Seq<Seq<char>>| lex_sorted(s) && s.to_multiset() == names.to_multiset()
}

/// Two ascending arrangements of the same names are the same.
pub proof fn lemma_sorted_unique(s1: Seq<Seq<char>>, s2: Seq<Seq<char>>)
    requires
        lex_sorted(s1),
        lex_sorted(s2),
        s1.to_multiset() == s2.to_multiset(),
    ensures
        s1 == s2,
    decreases s1.len(),
{
    broadcast use vstd::seq_lib::group_to_multiset_ensures;
    broadcast use vstd::multiset::group_multiset_axioms;

    vstd::seq_lib::to_multiset_len(s1);
    vstd::seq_lib::to_multiset_len(s2);
    if s1.len() == 0 {
        assert(s2.len() == 0);
        assert(s1 =~= s2);
    } else {
        assert(s2.len() == s1.len());
        let a = s1[0];
        let b = s2[0];
        assert(s2.to_multiset().count(a) > 0);
        assert(s2.contains(a));
        let j = choose|j: int| 0 <= j < s2.len() && s2[j] == a;
        if j > 0 {
            assert(lex_le(s2[0], s2[j]));
        }
        assert(s1.to_multiset().count(b) > 0);
        assert(s1.contains(b));
        let k = choose|k: int| 0 <= k < s1.len() && s1[k] == b;
        if k > 0 {
            assert(lex_le(s1[0], s1[k]));
        }
        if a != b {
            lemma_lex_asymmetric(a, b);
        }
        assert(a == b);
        vstd::seq_lib::to_multiset_remove(s1, 0);
        vstd::seq_lib::to_multiset_remove(s2, 0);
        assert(s1.remove(0) == s1.drop_first());
        assert(s2.remove(0) == s2.drop_first());
        assert forall|x: int, y: int| 0 <= x < y < s1.drop_first().len() implies lex_le(
            #[trigger] s1.drop_first()[x],
            #[trigger] s1.drop_first()[y],
        ) by {
            assert(lex_le(s1[x + 1], s1[y + 1]));
        }
        assert forall|x: int, y: int| 0 <= x < y < s2.drop_first().len() implies lex_le(
            #[trigger] s2.drop_first()[x],
            #[trigger] s2.drop_first()[y],
        ) by {
            assert(lex_le(s2[x + 1], s2[y + 1]));
        }
        lemma_sorted_unique(s1.drop_first(), s2.drop_first());
        assert forall|i: int| 0 <= i < s1.len() implies s1[i] == s2[i] by {
            if i > 0 {
                assert(s1[i] == s1.drop_first()[i - 1]);
                assert(s2[i] == s2.drop_first()[i - 1]);
            }
        }
        assert(s1 =~= s2);
    }
}

/// The views of a list of character vectors.
pub open spec fn names_view(v: Seq<Vec<char>>) -> Seq<Seq<char>> {
    v.map_values(|x: Vec<char>| x@)
}

fn lex_le_exec(a: &Vec<char>, b: &Vec<char>) -> (r: bool)
    ensures
        r == lex_le(a@, b@),
{
    match compare(a.as_slice(), b.as_slice()) {
        Cmp::Greater => {
            proof { lemma_lex_asymmetric(b@, a@); }
            false
        },
        _ => true,
    }
}

/// Sorts names in ascending order.
pub fn sort_names(names: Vec<Vec<char>>) -> (out: Vec<Vec<char>>)
    ensures
        names_view(out@) == sorted_names(names_view(names@)),
{
    broadcast use vstd::seq_lib::group_to_multiset_ensures;

    let ghost nv = names_view(names@);
    let mut out: Vec<Vec<char>> = Vec::new();
    let mut rest = names;
    let ghost total = rest@.len();
    assert(names_view(out@) =~= Seq::<Seq<char>>::empty());
    assert(nv.subrange(0, 0) =~= Seq::<Seq<char>>::empty());
    while rest.len() > 0
        invariant
            nv.len() == total,
            rest@.len() <= total,
            names_view(rest@) == nv.subrange(0, rest@.len() as int),
            lex_sorted(names_view(out@)),
            names_view(out@).to_multiset() == nv.subrange(rest@.len() as int, total as int).to_multiset(),
        decreases rest@.len(),
    {
        let ghost ov = names_view(out@);
        let ghost before = rest@;
        let x = rest.pop().unwrap();
        let ghost r = rest@.len();
        assert(before[r as int] == x);
        assert(names_view(before)[r as int] == x@);
        assert(nv[r as int] == x@);
        assert(names_view(rest@) =~= nv.subrange(0, r as int));
        let mut lo: usize = 0;
        let mut hi: usize = out.len();
        while lo < hi
            invariant
                ov == names_view(out@),
                lex_sorted(ov),
                lo <= hi <= out@.len(),
                forall|p: int| 0 <= p < lo ==> lex_le(#[trigger] ov[p], x@),
                forall|p: int| hi <= p < out@.len() ==> lex_le(x@, #[trigger] ov[p]),
            decreases hi - lo,
        {
            let mid = lo + (hi - lo) / 2;
            if lex_le_exec(&out[mid], &x) {
                assert forall|p: int| 0 <= p < mid + 1 implies lex_le(#[trigger] ov[p], x@) by {
                    if p < mid {
                        assert(lex_le(ov[p], ov[mid as int]));
                        if ov[p] != ov[mid as int] && ov[mid as int] != x@ {
                            lemma_lex_transitive(ov[p], ov[mid as int], x@);
                        }
                    }
                }
                lo = mid + 1;
            } else {
                proof { lemma_lex_total(ov[mid as int], x@); }
                assert forall|p: int| mid <= p < out@.len() implies lex_le(x@, #[trigger] ov[p]) by {
                    if p > mid {
                        assert(lex_le(ov[mid as int], ov[p]));
                        if ov[p] != ov[mid as int] {
                            lemma_lex_transitive(x@, ov[mid as int], ov[p]);
                        }
                    }
                }
                hi = mid;
            }
        }
        out.insert(lo, x);
        proof {
            let nvw = names_view(out@);
            assert(nvw =~= ov.insert(lo as int, x@));
            vstd::seq_lib::to_multiset_insert(ov, lo as int, x@);
            assert(nv.subrange(r as int, total as int) =~= nv.subrange(r + 1 as int, total as int).insert(0, x@));
            vstd::seq_lib::to_multiset_insert(nv.subrange(r + 1 as int, total as int), 0, x@);
            assert forall|p: int, q: int| 0 <= p < q < nvw.len() implies lex_le(#[trigger] nvw[p], #[trigger] nvw[q]) by {
                if q < lo {
                } else if q == lo {
                } else if p < lo {
                    if nvw[p] != x@ && x@ != nvw[q] {
                        lemma_lex_transitive(nvw[p], x@, nvw[q]);
                    }
                } else if p == lo {
                } else {
                }
            }
        }
    }
    proof {
        assert(nv.subrange(0, total as int) == nv);
        let w = names_view(out@);
        assert(lex_sorted(w) && w.to_multiset() == nv.to_multiset());
        lemma_sorted_unique(w, sorted_names(nv));
    }
    out
}


/// Strictly ascending order (no name twice).
pub open spec fn lex_strict(s: Seq<Seq<char>>) -> bool {
    forall|i: int, j: int| 0 <= i < j < s.len() ==> lex_lt(#[trigger] s[i], #[trigger] s[j])
}

/// The names of a set in ascending order.
pub open spec fn listing(names: Set<Seq<char>>) -> Seq<Seq<char>> {
    choose|s: Seq<Seq<char>>| lex_strict(s) && s.to_set() == names
}

/// A set of names has one ascending listing only.
pub proof fn lemma_listing_unique(s1: Seq<Seq<char>>, s2: Seq<Seq<char>>)
    requires
        lex_strict(s1),
        lex_strict(s2),
        s1.to_set() == s2.to_set(),
    ensures
        s1 == s2,
    decreases s1.len(),
{
    if s1.len() == 0 {
        if s2.len() > 0 {
            assert(s2.to_set().contains(s2[0]));
        }
        assert(s1 =~= s2);
    } else {
        assert(s1.to_set().contains(s1[0]));
        assert(s2.len() > 0);
        let a = s1[0];
        let b = s2[0];
        assert(s2.to_set().contains(a));
        let j = choose|j: int| 0 <= j < s2.len() && s2[j] == a;
        assert(s1.to_set().contains(b));
        let k = choose|k: int| 0 <= k < s1.len() && s1[k] == b;
        if a != b {
            if j > 0 && k > 0 {
                assert(lex_lt(s2[0], s2[j]));
                assert(lex_lt(s1[0], s1[k]));
                lemma_lex_asymmetric(a, b);
            }
        }
        assert(a == b);
        let r1 = s1.drop_first();
        let r2 = s2.drop_first();
        assert(lex_strict(r1)) by {
            assert forall|x: int, y: int| 0 <= x < y < r1.len() implies lex_lt(#[trigger] r1[x], #[trigger] r1[y]) by {
                assert(lex_lt(s1[x + 1], s1[y + 1]));
            }
        }
        assert(lex_strict(r2)) by {
            assert forall|x: int, y: int| 0 <= x < y < r2.len() implies lex_lt(#[trigger] r2[x], #[trigger] r2[y]) by {
                assert(lex_lt(s2[x + 1], s2[y + 1]));
            }
        }
        assert(r1.to_set() =~= r2.to_set()) by {
            assert forall|x: Seq<char>| r1.to_set().contains(x) implies r2.to_set().contains(x) by {
                let p = choose|p: int| 0 <= p < r1.len() && r1[p] == x;
                assert(lex_lt(s1[0], s1[p + 1]));
                lemma_lex_irreflexive(a);
                assert(s2.to_set().contains(x));
                let q = choose|q: int| 0 <= q < s2.len() && s2[q] == x;
                assert(q != 0);
                assert(r2[q - 1] == x);
            }
            assert forall|x: Seq<char>| r2.to_set().contains(x) implies r1.to_set().contains(x) by {
                let p = choose|p: int| 0 <= p < r2.len() && r2[p] == x;
                assert(lex_lt(s2[0], s2[p + 1]));
                lemma_lex_irreflexive(a);
                assert(s1.to_set().contains(x));
                let q = choose|q: int| 0 <= q < s1.len() && s1[q] == x;
                assert(q != 0);
                assert(r1[q - 1] == x);
            }
        }
        lemma_listing_unique(r1, r2);
        assert(r1.len() == r2.len());
        assert(r1.len() + 1 == s1.len());
        assert(r2.len() + 1 == s2.len());
        assert forall|i: int| 0 <= i < s1.len() implies s1[i] == s2[i] by {
            if i > 0 {
                assert(s1[i] == r1[i - 1]);
                assert(s2[i] == r2[i - 1]);
            }
        }
        assert(s1 =~= s2);
    }
}

} // verus!
