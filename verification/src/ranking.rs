//! Ordering by score, best first.

use crate::graph;
use crate::graph::{Name, NodeSet};
use vstd::prelude::*;

verus! {

/// Whether item `a` ranks before item `b`: it has the greater key, or it has the same key
/// and comes first.
pub open spec fn ranks_before(keys: Seq<u64>, a: int, b: int) -> bool {
    keys[a] > keys[b] || keys[a] == keys[b] && a < b
}

/// Whether `order` lists the positions of all keys, each once, best first.
pub open spec fn is_ranking(keys: Seq<u64>, order: Seq<usize>) -> bool {
    &&& order.len() == keys.len()
    &&& order.no_duplicates()
    &&& forall|i: int| 0 <= i < order.len() ==> (#[trigger] order[i]) < keys.len()
    &&& forall|k: usize| k < keys.len() ==> #[trigger] order.contains(k)
    &&& forall|i: int, j: int|
        0 <= i < j < order.len() ==> ranks_before(
            keys,
            #[trigger] order[i] as int,
            #[trigger] order[j] as int,
        )
}

/// The positions of all keys, best first.
pub open spec fn ranking(keys: Seq<u64>) -> Seq<usize> {
    choose|order: Seq<usize>| is_ranking(keys, order)
}

/// Keys have one ranking only.
pub proof fn law_ranking_unique(keys: Seq<u64>, a: Seq<usize>, b: Seq<usize>)
    requires
        is_ranking(keys, a),
        is_ranking(keys, b),
    ensures
        a == b,
{
    assert forall|k: int| 0 <= k < a.len() implies a[k] == b[k] by {
        lemma_same_rank(keys, a, b, k);
    }
    assert(a =~= b);
}

proof fn lemma_same_rank(keys: Seq<u64>, a: Seq<usize>, b: Seq<usize>, k: int)
    requires
        is_ranking(keys, a),
        is_ranking(keys, b),
        0 <= k < a.len(),
    ensures
        a[k] == b[k],
    decreases k,
{
    assert forall|i: int| 0 <= i < k implies a[i] == b[i] by {
        lemma_same_rank(keys, a, b, i);
    }
    assert(a.contains(b[k]));
    assert(b.contains(a[k]));
    let p = choose|p: int| 0 <= p < a.len() && a[p] == b[k];
    let q = choose|q: int| 0 <= q < b.len() && b[q] == a[k];
    if p < k {
        assert(b[p] == b[k]);
    }
    if q < k {
        assert(a[q] == a[k]);
    }
    if p > k && q > k {
        assert(ranks_before(keys, a[k] as int, a[p] as int));
        assert(ranks_before(keys, b[k] as int, b[q] as int));
    }
}

/// An item that is put in behind those with a key that is not less, and before the others,
/// keeps the ranking.
proof fn lemma_ranking_insert(keys: Seq<u64>, before: Seq<usize>, p: int, n: usize)
    requires
        keys.len() == n + 1,
        is_ranking(keys.drop_last(), before),
        0 <= p <= before.len(),
        forall|i: int| 0 <= i < p ==> keys[#[trigger] before[i] as int] >= keys.last(),
        forall|i: int| p <= i < before.len() ==> keys[#[trigger] before[i] as int] < keys.last(),
    ensures
        is_ranking(keys, before.insert(p, n)),
{
    let front = keys.drop_last();
    let key = keys.last();
    let r = before.insert(p, n);
    assert forall|k: usize| k < keys.len() implies #[trigger] r.contains(k) by {
        if k < n {
            assert(before.contains(k));
            let i = choose|i: int| 0 <= i < before.len() && before[i] == k;
            if i < p {
                assert(r[i] == k);
            } else {
                assert(r[i + 1] == k);
            }
        } else {
            assert(r[p] == k);
        }
    }
    assert forall|i: int| 0 <= i < r.len() implies (#[trigger] r[i]) < keys.len() by {
        if i < p {
            assert(r[i] == before[i]);
        } else if i > p {
            assert(r[i] == before[i - 1]);
        }
    }
    assert forall|i: int, j: int| 0 <= i < j < r.len() implies ranks_before(
        keys,
        #[trigger] r[i] as int,
        #[trigger] r[j] as int,
    ) by {
        let a = if i < p {
            i
        } else {
            i - 1
        };
        let b = if j < p {
            j
        } else {
            j - 1
        };
        if i == p {
            assert(r[j] == before[b]);
            assert(front[before[b] as int] < key);
        } else if j == p {
            assert(r[i] == before[a]);
            assert(front[before[a] as int] >= key);
        } else {
            assert(r[i] == before[a]);
            assert(r[j] == before[b]);
            assert(ranks_before(front, before[a] as int, before[b] as int));
        }
    }
    assert(r.no_duplicates()) by {
        assert forall|i: int, j: int|
            0 <= i < r.len() && 0 <= j < r.len() && i != j implies r[i] != r[j] by {
            if i < j {
                assert(ranks_before(keys, r[i] as int, r[j] as int));
            } else {
                assert(ranks_before(keys, r[j] as int, r[i] as int));
            }
        }
    }
}

/// Where an item with this key goes in a ranking, at position `i` or behind it.
spec fn insertion_point(keys: Seq<u64>, order: Seq<usize>, key: u64, i: int) -> int
    decreases order.len() - i,
{
    if i < order.len() && keys[order[i] as int] >= key {
        insertion_point(keys, order, key, i + 1)
    } else {
        i
    }
}

proof fn lemma_insertion_point(keys: Seq<u64>, order: Seq<usize>, key: u64, i: int)
    requires
        is_ranking(keys, order),
        0 <= i <= order.len(),
        forall|j: int| 0 <= j < i ==> keys[#[trigger] order[j] as int] >= key,
    ensures
        i <= insertion_point(keys, order, key, i) <= order.len(),
        forall|j: int|
            0 <= j < insertion_point(keys, order, key, i) ==> keys[#[trigger] order[j] as int]
                >= key,
        forall|j: int|
            insertion_point(keys, order, key, i) <= j < order.len() ==> keys[#[trigger] order[j] as int]
                < key,
    decreases order.len() - i,
{
    if i < order.len() {
        if keys[order[i] as int] >= key {
            lemma_insertion_point(keys, order, key, i + 1);
        } else {
            assert forall|j: int| i <= j < order.len() implies keys[#[trigger] order[j] as int]
                < key by {
                if i < j {
                    assert(ranks_before(keys, order[i] as int, order[j] as int));
                }
            }
        }
    }
}

/// Keys have a ranking.
pub proof fn law_ranking_exists(keys: Seq<u64>)
    requires
        keys.len() <= usize::MAX,
    ensures
        is_ranking(keys, ranking(keys)),
    decreases keys.len(),
{
    if keys.len() == 0 {
        assert(is_ranking(keys, Seq::empty()));
    } else {
        let front = keys.drop_last();
        law_ranking_exists(front);
        let before = ranking(front);
        let p = insertion_point(front, before, keys.last(), 0);
        lemma_insertion_point(front, before, keys.last(), 0);
        assert(forall|j: int|
            0 <= j < before.len() ==> front[#[trigger] before[j] as int] == keys[before[j] as int]);
        lemma_ranking_insert(keys, before, p, (keys.len() - 1) as usize);
    }
}

/// The positions of `keys`, greatest key first; equal keys keep their order.
pub fn descending_order(keys: &Vec<u64>) -> (r: Vec<usize>)
    ensures
        is_ranking(keys@, r@),
        r@ == ranking(keys@),
        r@.len() == keys@.len(),
        forall|i: int, j: int| 0 <= i < j < r@.len() ==> r@[i] != r@[j],
        forall|i: int| 0 <= i < r@.len() ==> (#[trigger] r@[i]) < keys@.len(),
        forall|i: int, j: int|
            0 <= i < j < r@.len() ==> keys@[#[trigger] r@[i] as int] > keys@[#[trigger] r@[j] as int]
                || keys@[r@[i] as int] == keys@[r@[j] as int] && r@[i] < r@[j],
{
    let mut r: Vec<usize> = Vec::new();
    let mut n: usize = 0;
    assert(keys@.take(0) =~= Seq::<u64>::empty());
    while n < keys.len()
        invariant
            n <= keys@.len(),
            is_ranking(keys@.take(n as int), r@),
        decreases keys@.len() - n,
    {
        let ghost seen = keys@.take(n as int);
        let ghost now = keys@.take(n + 1);
        let ghost before = r@;
        let key: u64 = keys[n];
        let mut lo: usize = 0;
        let mut hi: usize = r.len();
        while lo < hi
            invariant
                n < keys@.len(),
                key == keys@[n as int],
                seen == keys@.take(n as int),
                is_ranking(seen, r@),
                lo <= hi <= r@.len(),
                forall|i: int| 0 <= i < lo ==> seen[#[trigger] r@[i] as int] >= key,
                forall|i: int| hi <= i < r@.len() ==> seen[#[trigger] r@[i] as int] < key,
            decreases hi - lo,
        {
            let mid: usize = lo + (hi - lo) / 2;
            if keys[r[mid]] >= key {
                assert forall|i: int| 0 <= i < mid + 1 implies seen[#[trigger] r@[i] as int]
                    >= key by {
                    if i < mid {
                        assert(ranks_before(seen, r@[i] as int, r@[mid as int] as int));
                    }
                }
                lo = mid + 1;
            } else {
                assert forall|i: int| mid <= i < r@.len() implies seen[#[trigger] r@[i] as int]
                    < key by {
                    if mid < i {
                        assert(ranks_before(seen, r@[mid as int] as int, r@[i] as int));
                    }
                }
                hi = mid;
            }
        }
        r.insert(lo, n);
        proof {
            assert(now.drop_last() =~= seen);
            assert(forall|i: int|
                0 <= i < before.len() ==> seen[#[trigger] before[i] as int] == now[before[i] as int]);
            lemma_ranking_insert(now, before, lo as int, n);
        }
        n += 1;
    }
    proof {
        assert(keys@.take(n as int) =~= keys@);
        law_ranking_unique(keys@, r@, ranking(keys@));
    }
    r
}

/// The names in the order of their keys, best first.
pub open spec fn ranked(names: Seq<Name>, keys: Seq<u64>) -> Seq<Name> {
    ranking(keys).map_values(|i: usize| names[i as int])
}

/// The first `count` elements, or all of them where there are fewer.
pub open spec fn first<A>(s: Seq<A>, count: nat) -> Seq<A> {
    if count <= s.len() {
        s.take(count as int)
    } else {
        s
    }
}

/// The best `count` of the eligible names, best first.
pub open spec fn best(
    names: Seq<Name>,
    keys: Seq<u64>,
    eligible: Set<Name>,
    count: nat,
) -> Seq<Name> {
    first(ranked(names, keys).filter(|n: Name| eligible.contains(n)), count)
}

/// The names that a choice among `only` (or among all names, where that is `None`) leaves
/// after `exclude` has been struck out.
pub open spec fn eligible(only: Option<Set<Name>>, exclude: Set<Name>) -> Set<Name> {
    Set::new(
        |n: Name|
            (match only {
                Some(set) => set.contains(n),
                None => true,
            }) && !exclude.contains(n),
    )
}

/// The names of `set`, where there is one.
pub open spec fn option_names(set: Option<&NodeSet>) -> Option<Set<Name>> {
    match set {
        Some(s) => Some(s@.to_set()),
        None => None,
    }
}

/// Takes the best `count` names that are in `only` and not in `exclude`, given the ranking.
pub(crate) fn pick_best(
    names: &Vec<String>,
    order: &Vec<usize>,
    Ghost(keys): Ghost<Seq<u64>>,
    only: Option<&NodeSet>,
    exclude: &NodeSet,
    count: usize,
) -> (r: Vec<String>)
    requires
        keys.len() == names@.len(),
        order@ == ranking(keys),
        is_ranking(keys, order@),
        exclude.wf(),
        only is Some ==> only->0.wf(),
    ensures
        graph::texts(r@) == best(
            graph::texts(names@),
            keys,
            eligible(option_names(only), exclude@.to_set()),
            count as nat,
        ),
{
    let ghost all = ranked(graph::texts(names@), keys);
    let ghost fit = eligible(option_names(only), exclude@.to_set());
    let ghost keep = |n: Name| fit.contains(n);
    let mut r: Vec<String> = Vec::new();
    let mut i: usize = 0;
    proof {
        assert(all.take(0) =~= Seq::<Name>::empty());
        assert(all.take(0).filter(keep) =~= Seq::<Name>::empty()) by {
            reveal(Seq::filter);
        }
        assert(graph::texts(r@) =~= Seq::<Name>::empty());
    }
    while i < order.len() && r.len() < count
        invariant
            i <= order@.len(),
            all == ranked(graph::texts(names@), keys),
            keep == (|n: Name| fit.contains(n)),
            fit == eligible(option_names(only), exclude@.to_set()),
            keys.len() == names@.len(),
            order@ == ranking(keys),
            is_ranking(keys, order@),
            exclude.wf(),
            only is Some ==> only->0.wf(),
            r@.len() <= count,
            graph::texts(r@) == all.take(i as int).filter(keep),
        decreases order@.len() - i,
    {
        let name: &String = &names[order[i]];
        let inside: bool = match only {
            Some(set) => set.contains(name.as_str()),
            None => true,
        };
        let ghost before = graph::texts(r@);
        proof {
            assert(all[i as int] == name@);
            assert(all.take(i + 1).drop_last() =~= all.take(i as int));
            assert(exclude@.contains(name@) <==> exclude@.to_set().contains(name@));
            if only is Some {
                assert(only->0@.contains(name@) <==> only->0@.to_set().contains(name@));
            }
            reveal(Seq::filter);
        }
        if inside && !exclude.contains(name.as_str()) {
            r.push(name.clone());
            assert(graph::texts(r@) =~= before.push(name@));
        }
        i += 1;
    }
    proof {
        if i == order@.len() {
            assert(all.take(i as int) =~= all);
            assert(first(all.filter(keep), count as nat) =~= all.filter(keep));
        } else {
            lemma_filter_prefix(all, keep, i as int);
            assert(first(all.filter(keep), count as nat) =~= graph::texts(r@));
        }
    }
    r
}

/// What a filter keeps of a prefix is a prefix of what it keeps of the whole.
proof fn lemma_filter_prefix(s: Seq<Name>, keep: spec_fn(Name) -> bool, i: int)
    requires
        0 <= i <= s.len(),
    ensures
        s.take(i).filter(keep).len() <= s.filter(keep).len(),
        s.filter(keep).take(s.take(i).filter(keep).len() as int) == s.take(i).filter(keep),
    decreases s.len(),
{
    if i == s.len() {
        assert(s.take(i) =~= s);
        assert(s.filter(keep).take(s.filter(keep).len() as int) =~= s.filter(keep));
    } else {
        lemma_filter_prefix(s.drop_last(), keep, i);
        assert(s.drop_last().take(i) =~= s.take(i));
        reveal(Seq::filter);
        let part = s.take(i).filter(keep);
        assert(s.filter(keep).take(part.len() as int) =~= s.drop_last().filter(keep).take(
            part.len() as int,
        ));
    }
}

/// The best `count` names by key, greatest first, leaving out those in `exclude`; of equal
/// keys the one listed first is better.
pub fn top_betweenness(
    names: &Vec<String>,
    keys: &Vec<u64>,
    exclude: &NodeSet,
    count: usize,
) -> (r: Vec<String>)
    requires
        names@.len() == keys@.len(),
        exclude.wf(),
    ensures
        graph::texts(r@) == best(
            graph::texts(names@),
            keys@,
            eligible(None, exclude@.to_set()),
            count as nat,
        ),
{
    let order = descending_order(keys);
    pick_best(names, &order, Ghost(keys@), None, exclude, count)
}

proof fn lemma_kept_distinct(s: Seq<Name>, keep: spec_fn(Name) -> bool)
    requires
        s.no_duplicates(),
    ensures
        s.filter(keep).no_duplicates(),
    decreases s.len(),
{
    reveal(Seq::filter);
    if s.len() > 0 {
        let front = s.drop_last();
        lemma_kept_distinct(front, keep);
        graph::lemma_kept(front, keep, s.last());
        if front.contains(s.last()) {
            let i = choose|i: int| 0 <= i < front.len() && front[i] == s.last();
            assert(s[i] == s[s.len() - 1]);
        }
    }
}

/// The first ones that are kept of a list are all that is kept of a front part of it.
proof fn lemma_first_kept(s: Seq<Name>, keep: spec_fn(Name) -> bool, count: nat) -> (cut: int)
    ensures
        0 <= cut <= s.len(),
        first(s.filter(keep), count) == s.take(cut).filter(keep),
        cut < s.len() ==> first(s.filter(keep), count).len() == count,
    decreases s.len(),
{
    if s.filter(keep).len() <= count {
        assert(s.take(s.len() as int) =~= s);
        assert(first(s.filter(keep), count) =~= s.filter(keep));
        s.len() as int
    } else {
        reveal(Seq::filter);
        let front = s.drop_last();
        let cut = lemma_first_kept(front, keep, count);
        assert(front.take(cut) =~= s.take(cut));
        assert(first(s.filter(keep), count) =~= first(front.filter(keep), count));
        cut
    }
}

/// The best names are eligible ones, no more than asked for, and none twice. An eligible name
/// is left out only where there are as many as asked for, none of them with a smaller key.
pub proof fn law_best_are_best(names: Seq<Name>, keys: Seq<u64>, eligible: Set<Name>, count: nat)
    requires
        names.len() == keys.len(),
        keys.len() <= usize::MAX,
        names.no_duplicates(),
    ensures
        ({
            let r = best(names, keys, eligible, count);
            &&& r.len() <= count
            &&& r.no_duplicates()
            &&& forall|n: Name| #[trigger]
                r.contains(n) ==> names.contains(n) && eligible.contains(n)
            &&& forall|i: int|
                0 <= i < names.len() && eligible.contains(#[trigger] names[i]) && !r.contains(
                    names[i],
                ) ==> r.len() == count
            &&& forall|i: int, j: int|
                #![trigger names[i], names[j]]
                0 <= i < names.len() && 0 <= j < names.len() && eligible.contains(names[i])
                    && !r.contains(names[i]) && r.contains(names[j]) ==> keys[j] > keys[i]
                    || keys[j] == keys[i] && j < i
            &&& forall|i: int, j: int, a: int, b: int|
                #![trigger r[i], r[j], names[a], names[b]]
                0 <= i < j < r.len() && 0 <= a < names.len() && 0 <= b < names.len() && r[i]
                    == names[a] && r[j] == names[b] ==> keys[a] > keys[b] || keys[a] == keys[b] && a
                    < b
        }),
{
    law_ranking_exists(keys);
    let order = ranking(keys);
    let all = ranked(names, keys);
    let keep = |n: Name| eligible.contains(n);
    let r = best(names, keys, eligible, count);
    let cut = lemma_first_kept(all, keep, count);
    assert(all.no_duplicates()) by {
        assert forall|i: int, j: int|
            0 <= i < all.len() && 0 <= j < all.len() && i != j implies all[i] != all[j] by {
            assert(order[i] != order[j]);
        }
    }
    let shown = all.take(cut);
    assert(shown.no_duplicates());
    lemma_kept_distinct(shown, keep);
    assert forall|n: Name| #[trigger] r.contains(n) implies names.contains(n) && eligible.contains(
        n,
    ) by {
        graph::lemma_kept(shown, keep, n);
        let i = choose|i: int| 0 <= i < shown.len() && shown[i] == n;
        assert(names[order[i] as int] == n);
    }
    assert forall|i: int|
        0 <= i < names.len() && eligible.contains(#[trigger] names[i]) && !r.contains(
            names[i],
        ) implies r.len() == count && exists|b: int|
        cut <= b < order.len() && #[trigger] order[b] == i by {
        graph::lemma_kept(shown, keep, names[i]);
        assert(order.contains(i as usize));
        let b = choose|b: int| 0 <= b < order.len() && order[b] == i as usize;
        if b < cut {
            assert(shown[b] == names[i]);
        }
    }
    assert forall|i: int, j: int|
        #![trigger names[i], names[j]]
        0 <= i < names.len() && 0 <= j < names.len() && eligible.contains(names[i]) && !r.contains(
            names[i],
        ) && r.contains(names[j]) implies keys[j] > keys[i] || keys[j] == keys[i] && j < i by {
        let b = choose|b: int| cut <= b < order.len() && #[trigger] order[b] == i;
        graph::lemma_kept(shown, keep, names[j]);
        let a = choose|a: int| 0 <= a < shown.len() && shown[a] == names[j];
        assert(names[order[a] as int] == names[j]);
        assert(order[a] == j);
        assert(ranks_before(keys, order[a] as int, order[b] as int));
    }
    assert forall|i: int, j: int, a: int, b: int|
        #![trigger r[i], r[j], names[a], names[b]]
        0 <= i < j < r.len() && 0 <= a < names.len() && 0 <= b < names.len() && r[i] == names[a]
            && r[j] == names[b] implies keys[a] > keys[b] || keys[a] == keys[b] && a < b by {
        lemma_kept_in_order(shown, keep, i, j);
        let (x, y) = choose|x: int, y: int|
            0 <= x < y < shown.len() && #[trigger] shown[x] == r[i] && #[trigger] shown[y] == r[j];
        assert(names[order[x] as int] == names[a]);
        assert(names[order[y] as int] == names[b]);
        assert(order[x] == a && order[y] == b);
        assert(ranks_before(keys, order[x] as int, order[y] as int));
    }
}

/// What is kept of a list stays in order.
proof fn lemma_kept_in_order(s: Seq<Name>, keep: spec_fn(Name) -> bool, i: int, j: int)
    requires
        0 <= i < j < s.filter(keep).len(),
    ensures
        exists|x: int, y: int|
            0 <= x < y < s.len() && #[trigger] s[x] == s.filter(keep)[i] && #[trigger] s[y]
                == s.filter(keep)[j],
    decreases s.len(),
{
    reveal(Seq::filter);
    let front = s.drop_last();
    let kept = front.filter(keep);
    if j < kept.len() {
        lemma_kept_in_order(front, keep, i, j);
        let (x, y) = choose|x: int, y: int|
            0 <= x < y < front.len() && #[trigger] front[x] == kept[i] && #[trigger] front[y]
                == kept[j];
        assert(s[x] == s.filter(keep)[i] && s[y] == s.filter(keep)[j]);
    } else {
        assert(kept.contains(kept[i]));
        graph::lemma_kept(front, keep, kept[i]);
        let x = choose|x: int| 0 <= x < front.len() && front[x] == kept[i];
        let y = s.len() - 1;
        assert(s[x] == s.filter(keep)[i] && s[y] == s.filter(keep)[j]);
    }
}

} // verus!
