//! Reciprocal rank fusion: the part that does not depend on the scores.
//!
//! Fusing ranked id lists gives every id the sum, over the lists it appears
//! in, of a contribution that depends on its 1-based rank there. This module
//! collects, for each distinct id in order of first appearance, the ranks it
//! holds, in the order the lists are walked. The caller sums the
//! contributions and orders the ids by score (see `rank`), ties broken by
//! first appearance.

use vstd::prelude::*;
use vstd::laws_eq::obeys_concrete_eq;
use vstd::std_specs::cmp::PartialEqSpec;

verus! {

/// Every `(id, rank)` entry of the lists, walking the lists in order and
/// each list from its first item; ranks start at 1.
pub open spec fn ranked_entries<I>(lists: Seq<Seq<I>>) -> Seq<(I, nat)>
    decreases lists.len(),
{
    if lists.len() == 0 {
        Seq::empty()
    } else {
        ranked_entries(lists.drop_last()) + lists.last().map(|r: int, x: I| (x, (r + 1) as nat))
    }
}

/// The distinct ids of `entries` (the first component of each entry), in
/// order of first appearance.
pub open spec fn first_seen<I, X>(entries: Seq<(I, X)>) -> Seq<I>
    decreases entries.len(),
{
    if entries.len() == 0 {
        Seq::empty()
    } else {
        let prev = first_seen(entries.drop_last());
        if prev.contains(entries.last().0) {
            prev
        } else {
            prev.push(entries.last().0)
        }
    }
}

/// The ranks `id` holds in `entries`, in order.
pub open spec fn ranks_of<I>(entries: Seq<(I, nat)>, id: I) -> Seq<nat>
    decreases entries.len(),
{
    if entries.len() == 0 {
        Seq::empty()
    } else {
        let prev = ranks_of(entries.drop_last(), id);
        if entries.last().0 == id {
            prev.push(entries.last().1)
        } else {
            prev
        }
    }
}

/// `ids` and `ranks` describe `entries`: one group per distinct id, in
/// order of first appearance, each holding that id's ranks in order.
pub open spec fn groups_describe<I>(ids: Seq<I>, ranks: Seq<Seq<usize>>, entries: Seq<(I, nat)>) -> bool {
    &&& ids == first_seen(entries)
    &&& ranks.len() == ids.len()
    &&& forall|g: int| 0 <= g < ids.len() ==>
        (#[trigger] ranks[g]).map_values(|r: usize| r as nat) == ranks_of(entries, ids[g])
}

pub(crate) proof fn lemma_first_seen_contains<I, X>(entries: Seq<(I, X)>, id: I)
    ensures
        first_seen(entries).contains(id) <==> exists|k: int| 0 <= k < entries.len() && (#[trigger] entries[k]).0 == id,
    decreases entries.len(),
{
    if entries.len() > 0 {
        let prev = entries.drop_last();
        let fs = first_seen(prev);
        let last = entries.last().0;
        lemma_first_seen_contains(prev, id);
        if first_seen(entries).contains(id) {
            if fs.contains(id) {
                let k = choose|k: int| 0 <= k < prev.len() && (#[trigger] prev[k]).0 == id;
                assert(entries[k] == prev[k]);
            } else {
                assert(!fs.contains(last));
                assert(first_seen(entries) == fs.push(last));
                let j = choose|j: int| 0 <= j < fs.push(last).len() && fs.push(last)[j] == id;
                if j < fs.len() {
                    assert(fs.contains(id));
                }
                assert(entries[entries.len() - 1].0 == id);
            }
        }
        if exists|k: int| 0 <= k < entries.len() && (#[trigger] entries[k]).0 == id {
            let k = choose|k: int| 0 <= k < entries.len() && (#[trigger] entries[k]).0 == id;
            if k < entries.len() - 1 {
                assert(prev[k] == entries[k]);
                assert(fs.contains(id));
                let j = choose|j: int| 0 <= j < fs.len() && fs[j] == id;
                if !fs.contains(last) {
                    assert(fs.push(last)[j] == id);
                }
            } else {
                assert(last == id);
                if !fs.contains(last) {
                    assert(fs.push(last)[fs.len() as int] == id);
                }
            }
        }
    }
}

proof fn lemma_ranks_of_absent<I>(entries: Seq<(I, nat)>, id: I)
    requires
        !first_seen(entries).contains(id),
    ensures
        ranks_of(entries, id) == Seq::<nat>::empty(),
    decreases entries.len(),
{
    if entries.len() > 0 {
        lemma_first_seen_contains(entries, id);
        lemma_first_seen_contains(entries.drop_last(), id);
        if first_seen(entries.drop_last()).contains(id) {
            let k = choose|k: int| 0 <= k < entries.drop_last().len() && (#[trigger] entries.drop_last()[k]).0 == id;
            assert(entries[k].0 == id);
        }
        assert(entries[entries.len() - 1].0 != id);
        lemma_ranks_of_absent(entries.drop_last(), id);
    }
}

pub(crate) proof fn lemma_first_seen_distinct<I, X>(entries: Seq<(I, X)>)
    ensures
        first_seen(entries).no_duplicates(),
    decreases entries.len(),
{
    if entries.len() > 0 {
        lemma_first_seen_distinct(entries.drop_last());
    }
}

/// Groups the ids of ranked lists: the distinct ids in order of first
/// appearance, and for each the 1-based ranks it holds, in the order the
/// lists are walked. Ids are compared with `==`; the description holds for
/// every id type whose `==` is equality.
pub fn rank_groups<I: Copy + PartialEq>(lists: &[&[I]]) -> (r: (Vec<I>, Vec<Vec<usize>>))
    ensures
        r.0@.len() == r.1@.len(),
        obeys_concrete_eq::<I>() ==> groups_describe(
            r.0@,
            r.1@.map_values(|v: Vec<usize>| v@),
            ranked_entries(lists@.map_values(|s: &[I]| s@)),
        ),
{
    let ghost ok = obeys_concrete_eq::<I>();
    proof {
        if ok {
            reveal(obeys_concrete_eq);
        }
    }
    let ghost ls = lists@.map_values(|s: &[I]| s@);
    let mut ids: Vec<I> = Vec::new();
    let mut ranks: Vec<Vec<usize>> = Vec::new();
    let mut l: usize = 0;
    while l < lists.len()
        invariant
            l <= lists@.len(),
            ls == lists@.map_values(|s: &[I]| s@),
            ids@.len() == ranks@.len(),
            ok == obeys_concrete_eq::<I>(),
            ok ==> (forall|x: I, y: I| x.eq_spec(&y) <==> x == y),
            ok ==> I::obeys_eq_spec(),
            ok ==> groups_describe(ids@, ranks@.map_values(|v: Vec<usize>| v@), ranked_entries(ls.take(l as int))),
        decreases lists@.len() - l,
    {
        let list: &[I] = lists[l];
        let ghost base = ranked_entries(ls.take(l as int));
        let mut r: usize = 0;
        while r < list.len()
            invariant
                l < lists@.len(),
                r <= list@.len(),
                list@ == ls[l as int],
                ls == lists@.map_values(|s: &[I]| s@),
                ids@.len() == ranks@.len(),
                ok == obeys_concrete_eq::<I>(),
                ok ==> (forall|x: I, y: I| x.eq_spec(&y) <==> x == y),
                ok ==> I::obeys_eq_spec(),
                base == ranked_entries(ls.take(l as int)),
                ok ==> groups_describe(
                    ids@,
                    ranks@.map_values(|v: Vec<usize>| v@),
                    base + list@.take(r as int).map(|k: int, x: I| (x, (k + 1) as nat)),
                ),
            decreases list@.len() - r,
        {
            let id: I = list[r];
            let ghost e = base + list@.take(r as int).map(|k: int, x: I| (x, (k + 1) as nat));
            let ghost e2 = base + list@.take(r as int + 1).map(|k: int, x: I| (x, (k + 1) as nat));
            proof {
                assert(e2 =~= e.push((id, (r + 1) as nat)));
                assert(e2.drop_last() =~= e);
            }
            let mut p: usize = 0;
            let mut found = false;
            while p < ids.len() && !found
                invariant
                    p <= ids@.len(),
                    found ==> p < ids@.len(),
                    found ==> (ok ==> ids@[p as int] == id),
                    ok ==> I::obeys_eq_spec(),
                    ok ==> (forall|x: I, y: I| x.eq_spec(&y) <==> x == y),
                    ok ==> forall|q: int| 0 <= q < p ==> ids@[q] != id,
                decreases (ids@.len() - p) * 2 + if found { 0int } else { 1int },
            {
                if ids[p] == id {
                    found = true;
                } else {
                    p = p + 1;
                }
            }
            let ghost old_ids = ids@;
            let ghost old_ranks = ranks@.map_values(|v: Vec<usize>| v@);
            if found {
                let mut v: Vec<usize> = ranks[p].clone();
                proof {
                    assert(v@ =~= ranks@[p as int]@);
                }
                v.push(r + 1);
                ranks.set(p, v);
                proof {
                    if ok {
                        assert(ids@[p as int] == id);
                        assert(first_seen(e).contains(id));
                        assert(first_seen(e2) == first_seen(e));
                        let nr = ranks@.map_values(|v: Vec<usize>| v@);
                        assert forall|g: int| 0 <= g < ids@.len() implies
                            (#[trigger] nr[g]).map_values(|x: usize| x as nat) == ranks_of(e2, ids@[g]) by {
                            if g == p {
                                assert(nr[g].map_values(|x: usize| x as nat) =~= old_ranks[g].map_values(|x: usize| x as nat).push((r + 1) as nat));
                            } else {
                                lemma_first_seen_distinct(e);
                                assert(ids@[g] != id);
                                assert(nr[g] == old_ranks[g]);
                            }
                        }
                    }
                }
            } else {
                ids.push(id);
                let mut v: Vec<usize> = Vec::new();
                v.push(r + 1);
                ranks.push(v);
                proof {
                    if ok {
                        assert(!old_ids.contains(id));
                        assert(first_seen(e2) == first_seen(e).push(id));
                        lemma_ranks_of_absent(e, id);
                        let nr = ranks@.map_values(|v: Vec<usize>| v@);
                        assert forall|g: int| 0 <= g < ids@.len() implies
                            (#[trigger] nr[g]).map_values(|x: usize| x as nat) == ranks_of(e2, ids@[g]) by {
                            if g == old_ids.len() {
                                assert(nr[g].map_values(|x: usize| x as nat) =~= seq![(r + 1) as nat]);
                                assert(ranks_of(e2, id) =~= seq![(r + 1) as nat]);
                            } else {
                                assert(ids@[g] == old_ids[g]);
                                assert(ids@[g] != id);
                                assert(nr[g] == old_ranks[g]);
                            }
                        }
                        assert(ids@ =~= first_seen(e2));
                    }
                }
            }
            r = r + 1;
        }
        proof {
            assert(ls.take(l as int + 1).drop_last() =~= ls.take(l as int));
            assert(list@.take(r as int) =~= list@);
            assert(ls.take(l as int + 1).last() == ls[l as int]);
        }
        l = l + 1;
    }
    proof {
        assert(ls.take(l as int) =~= ls);
    }
    (ids, ranks)
}

/// Every id of the input lists lands in exactly one group, and no other id
/// does: the groups hold the distinct input ids, each once.
pub proof fn law_groups_hold_each_input_id_once<I>(entries: Seq<(I, nat)>, id: I)
    ensures
        first_seen(entries).contains(id) <==> exists|k: int| 0 <= k < entries.len() && (#[trigger] entries[k]).0 == id,
        first_seen(entries).no_duplicates(),
{
    lemma_first_seen_contains(entries, id);
    lemma_first_seen_distinct(entries);
}

proof fn lemma_single_list_prefix<I>(list: Seq<I>, n: int)
    requires
        list.no_duplicates(),
        0 <= n <= list.len(),
    ensures
        first_seen(list.map(|r: int, x: I| (x, (r + 1) as nat)).take(n)) == list.take(n),
        forall|i: int| 0 <= i < list.len() ==>
            ranks_of(list.map(|r: int, x: I| (x, (r + 1) as nat)).take(n), #[trigger] list[i])
                == if i < n { seq![(i + 1) as nat] } else { Seq::<nat>::empty() },
    decreases n,
{
    let m = list.map(|r: int, x: I| (x, (r + 1) as nat));
    if n == 0 {
        assert(m.take(0) =~= Seq::<(I, nat)>::empty());
        assert(list.take(0) =~= Seq::<I>::empty());
    } else {
        lemma_single_list_prefix(list, n - 1);
        assert(m.take(n).drop_last() =~= m.take(n - 1));
        assert(m.take(n).last() == (list[n - 1], n as nat));
        assert(!list.take(n - 1).contains(list[n - 1])) by {
            if list.take(n - 1).contains(list[n - 1]) {
                let pre = list.take(n - 1);
                let j = choose|j: int| 0 <= j < pre.len() && #[trigger] pre[j] == list[n - 1];
                assert(list[j] == list[n - 1]);
            }
        }
        assert(list.take(n) =~= list.take(n - 1).push(list[n - 1]));
        assert forall|i: int| 0 <= i < list.len() implies
            ranks_of(m.take(n), #[trigger] list[i])
                == if i < n { seq![(i + 1) as nat] } else { Seq::<nat>::empty() } by {
            if i == n - 1 {
                assert(seq![(i + 1) as nat] =~= Seq::<nat>::empty().push((i + 1) as nat));
            } else {
                assert(list[n - 1] != list[i]);
            }
        }
    }
}

/// A single list of distinct ids keeps its order: each id forms its own
/// group, in list order, holding just its own rank.
pub proof fn law_single_list_keeps_its_order<I>(list: Seq<I>)
    requires
        list.no_duplicates(),
    ensures
        first_seen(ranked_entries(seq![list])) == list,
        forall|i: int| 0 <= i < list.len() ==>
            ranks_of(ranked_entries(seq![list]), #[trigger] list[i]) == seq![(i + 1) as nat],
{
    let m = list.map(|r: int, x: I| (x, (r + 1) as nat));
    let ls = seq![list];
    assert(ls.drop_last() =~= Seq::<Seq<I>>::empty());
    assert(ls.last() == list);
    assert(ranked_entries(ls.drop_last()) =~= Seq::<(I, nat)>::empty());
    assert(ranked_entries(ls) == ranked_entries(ls.drop_last()) + m);
    assert(ranked_entries(ls) =~= m);
    lemma_single_list_prefix(list, list.len() as int);
    assert(m.take(list.len() as int) =~= m);
    assert(list.take(list.len() as int) =~= list);
}

/// No lists, or only empty lists, give no groups.
pub proof fn law_empty_input_gives_no_groups<I>(lists: Seq<Seq<I>>)
    requires
        forall|l: int| 0 <= l < lists.len() ==> (#[trigger] lists[l]).len() == 0,
    ensures
        first_seen(ranked_entries(lists)) == Seq::<I>::empty(),
    decreases lists.len(),
{
    if lists.len() > 0 {
        law_empty_input_gives_no_groups(lists.drop_last());
        assert(lists.last().len() == 0);
        assert(ranked_entries(lists) =~= ranked_entries(lists.drop_last()));
    }
}

/// The entries of ranked lists are the lists' items with their 1-based
/// positions, list after list: the lists, each item paired with its rank,
/// flattened in order.
pub proof fn law_entries_are_the_ranked_list_items<I>(lists: Seq<Seq<I>>)
    ensures
        ranked_entries(lists) == lists.map_values(|l: Seq<I>| l.map(|r: int, x: I| (x, (r + 1) as nat))).flatten(),
    decreases lists.len(),
{
    if lists.len() > 0 {
        let f = |l: Seq<I>| l.map(|r: int, x: I| (x, (r + 1) as nat));
        law_entries_are_the_ranked_list_items(lists.drop_last());
        let m = lists.map_values(f);
        assert(lists.drop_last().map_values(f) =~= m.drop_last());
        assert(m =~= m.drop_last().push(m.last()));
        m.drop_last().lemma_flatten_push(m.last());
    }
}

proof fn lemma_ranks_of_is_filter<I>(entries: Seq<(I, nat)>, id: I)
    ensures
        ranks_of(entries, id) == entries.filter(|e: (I, nat)| e.0 == id).map_values(|e: (I, nat)| e.1),
    decreases entries.len(),
{
    reveal(Seq::filter);
    if entries.len() > 0 {
        lemma_ranks_of_is_filter(entries.drop_last(), id);
        let pred = |e: (I, nat)| e.0 == id;
        let prev = entries.drop_last().filter(pred);
        if entries.last().0 == id {
            assert(entries.filter(pred) == prev.push(entries.last()));
            assert(prev.push(entries.last()).map_values(|e: (I, nat)| e.1)
                =~= prev.map_values(|e: (I, nat)| e.1).push(entries.last().1));
        } else {
            assert(entries.filter(pred) == prev);
        }
    }
}

/// Every occurrence of an id in the lists gives its group one rank, and
/// nothing else does: a group's ranks are the ranks of exactly the entries
/// that carry its id, in order, repeats included (an id at rank 1 in two
/// lists holds the ranks 1 and 1), so the group holds as many ranks as the
/// id has occurrences.
pub proof fn law_each_occurrence_is_one_rank<I>(lists: Seq<Seq<I>>, ids: Seq<I>, ranks: Seq<Seq<usize>>)
    requires
        groups_describe(ids, ranks, ranked_entries(lists)),
    ensures
        forall|g: int| 0 <= g < ids.len() ==>
            (#[trigger] ranks[g]).map_values(|r: usize| r as nat)
                == ranked_entries(lists).filter(|e: (I, nat)| e.0 == ids[g]).map_values(|e: (I, nat)| e.1),
        forall|g: int| 0 <= g < ids.len() ==>
            (#[trigger] ranks[g]).len() == ranked_entries(lists).filter(|e: (I, nat)| e.0 == ids[g]).len(),
{
    assert forall|g: int| 0 <= g < ids.len() implies
        (#[trigger] ranks[g]).map_values(|r: usize| r as nat)
            == ranked_entries(lists).filter(|e: (I, nat)| e.0 == ids[g]).map_values(|e: (I, nat)| e.1) by {
        lemma_ranks_of_is_filter(ranked_entries(lists), ids[g]);
    }
    assert forall|g: int| 0 <= g < ids.len() implies
        (#[trigger] ranks[g]).len() == ranked_entries(lists).filter(|e: (I, nat)| e.0 == ids[g]).len() by {
        lemma_ranks_of_is_filter(ranked_entries(lists), ids[g]);
        assert(ranks[g].map_values(|r: usize| r as nat).len() == ranks[g].len());
    }
}

} // verus!
