use vstd::prelude::*;

use super::coordinator::{
    arc_ranges, arcs_upto, coalesce, count_starts_upto, filter_available, first_of_group,
    group_of, merge_upto, merged, overlap, plan, range_owners, sort_by_start, supply_row,
    supply_step, transfers, ReplicasView,
};
use super::crud::{collect_distinct, lemma_collect_distinct, owners_from, rotate};
use super::{count_node, RingView};

verus! {

/// Whether the range of `r` holds the hash `p`.
pub open spec fn covers<T>(r: ReplicasView<T>, p: u64) -> bool {
    r.start <= p <= r.end
}

/// Whether one of the ranges of `s` holds the hash `p`.
pub open spec fn covered<T>(s: Seq<ReplicasView<T>>, p: u64) -> bool {
    exists|k: int| 0 <= k < s.len() && covers(s[k], p)
}

/// A ring of exactly one real node is one range, `[0, MAX]`, owned by that
/// node alone.
pub proof fn lemma_single_node_partition<T>(v: RingView<T>)
    requires
        v.wf(),
        v.real_count() == 1,
    ensures
        v.partition().len() == 1,
        v.partition()[0].start == 0,
        v.partition()[0].end == u64::MAX,
        v.partition()[0].nodes == seq![v.entries[0].1],
{
}

proof fn lemma_count_node_bounds<T>(e: Seq<(u64, T, usize)>, k: int)
    requires
        0 <= k < e.len(),
    ensures
        1 <= count_node(e, e[k].1) <= e.len(),
    decreases e.len(),
{
    if k < e.len() - 1 {
        lemma_count_node_bounds(e.drop_last(), k);
        assert(e.drop_last()[k] == e[k]);
    } else {
        lemma_count_node_upper(e.drop_last(), e[k].1);
    }
}

proof fn lemma_count_node_upper<T>(e: Seq<(u64, T, usize)>, n: T)
    ensures
        count_node(e, n) <= e.len(),
    decreases e.len(),
{
    if e.len() > 0 {
        lemma_count_node_upper(e.drop_last(), n);
    }
}

/// A well-formed ring with a placement has at least one real node.
proof fn lemma_nonempty_has_node<T>(v: RingView<T>)
    requires
        v.wf(),
        v.entries.len() > 0,
    ensures
        v.real_count() >= 1,
        v.owner_limit() >= 1,
{
    let e = v.entries;
    let c = count_node(e, e[0].1);
    lemma_count_node_bounds(e, 0);
    assert(c % v.vnodes == 0);
    vstd::arithmetic::div_mod::lemma_fundamental_div_mod(c as int, v.vnodes as int);
    assert(c >= v.vnodes) by (nonlinear_arith)
        requires
            c >= 1,
            c == v.vnodes * (c / v.vnodes) + c % v.vnodes,
            c % v.vnodes == 0,
            v.vnodes >= 1,
    ;
    vstd::arithmetic::div_mod::lemma_div_is_ordered(v.vnodes as int, e.len() as int, v.vnodes as int);
    vstd::arithmetic::div_mod::lemma_div_by_self(v.vnodes as int);
}

/// Every range among the first `n` arcs is owned by the walk from one of the
/// first `n` placements.
proof fn lemma_arcs_owners<T>(v: RingView<T>, n: int, k: int)
    requires
        0 <= n <= v.entries.len(),
        0 <= k < arcs_upto(v, n).len(),
    ensures
        exists|i: int|
            0 <= i < n && arcs_upto(v, n)[k].nodes == owners_from(
                v.entries,
                i,
                v.owner_limit(),
            ),
    decreases n,
{
    let a = arcs_upto(v, n - 1);
    if k < a.len() {
        lemma_arcs_owners(v, n - 1, k);
    } else {
        assert(arcs_upto(v, n)[k] == arc_ranges(v, n - 1)[k - a.len()]);
        assert(arcs_upto(v, n)[k].nodes == owners_from(v.entries, n - 1, v.owner_limit()));
    }
}

/// The walk from a placement of a non-empty ring collects at least one and at
/// most `limit` nodes, none twice, all of them nodes of the ring.
proof fn lemma_walk<T>(e: Seq<(u64, T, usize)>, i: int, limit: nat)
    requires
        0 <= i < e.len(),
    ensures
        owners_from(e, i, limit).len() <= limit,
        owners_from(e, i, limit).no_duplicates(),
        limit > 0 ==> owners_from(e, i, limit).len() >= 1,
        forall|k: int|
            0 <= k < owners_from(e, i, limit).len() ==> exists|j: int|
                0 <= j < e.len() && #[trigger] owners_from(e, i, limit)[k] == e[j].1,
{
    let s = rotate(e, i).map_values(|x: (u64, T, usize)| x.1);
    lemma_collect_distinct(s, limit);
    assert forall|k: int|
        0 <= k < owners_from(e, i, limit).len() implies exists|j: int|
            0 <= j < e.len() && #[trigger] owners_from(e, i, limit)[k] == e[j].1 by {
        let x = owners_from(e, i, limit)[k];
        assert(s.contains(x));
        let m = choose|m: int| 0 <= m < s.len() && s[m] == x;
        if m < e.len() - i {
            assert(x == e[i + m].1);
        } else {
            assert(x == e[m - (e.len() - i)].1);
        }
    }
}

/// Each range of the partition has at least one owner and at most
/// `min(replicas + 1, real node count)`, no node twice, and only nodes of the
/// ring.
pub proof fn lemma_partition_owner_count<T>(v: RingView<T>, k: int)
    requires
        v.wf(),
        0 <= k < v.partition().len(),
    ensures
        1 <= v.partition()[k].nodes.len() <= v.owner_limit(),
        v.partition()[k].nodes.len() <= v.replicas + 1,
        v.partition()[k].nodes.len() <= v.real_count(),
        v.partition()[k].nodes.no_duplicates(),
        forall|m: int|
            0 <= m < v.partition()[k].nodes.len() ==> exists|j: int|
                0 <= j < v.entries.len() && #[trigger] v.partition()[k].nodes[m] == v.entries[j].1,
{
    if v.real_count() == 1 {
        assert(v.partition()[k].nodes == seq![v.entries[0].1]);
        assert(v.entries.len() > 0);
        assert(v.partition()[k].nodes[0] == v.entries[0].1);
    } else {
        let n = v.entries.len() as int;
        if n == 0 {
            assert(arcs_upto(v, 0).len() == 0);
        }
        lemma_arcs_owners(v, n, k);
        let i = choose|i: int|
            0 <= i < n && arcs_upto(v, n)[k].nodes == owners_from(
                v.entries,
                i,
                v.owner_limit(),
            );
        lemma_nonempty_has_node(v);
        lemma_walk(v.entries, i, v.owner_limit());
    }
}

/// After the first `n` arcs (the wrapping one first), the ranges are
/// non-empty, pairwise disjoint, and hold exactly the hashes above the last
/// placement or at most the `n`-th.
proof fn lemma_arcs_cover<T>(v: RingView<T>, n: int)
    requires
        v.wf(),
        1 <= n <= v.entries.len(),
        v.entries[0].0 < v.entries[v.entries.len() - 1].0,
    ensures
        forall|k: int|
            0 <= k < arcs_upto(v, n).len() ==> (#[trigger] arcs_upto(v, n)[k]).start <= arcs_upto(
                v,
                n,
            )[k].end,
        forall|p: u64|
            #[trigger] covered(arcs_upto(v, n), p) <==> (p > v.entries[v.entries.len() - 1].0 || p
                <= v.entries[n - 1].0),
        forall|k1: int, k2: int, p: u64|
            0 <= k1 < k2 < arcs_upto(v, n).len() ==> !(#[trigger] covers(arcs_upto(v, n)[k1], p) && #[trigger] covers(
                arcs_upto(v, n)[k2],
                p,
            )),
    decreases n,
{
    let e = v.entries;
    let last = e[e.len() - 1].0;
    let a = arcs_upto(v, n - 1);
    let piece = arc_ranges(v, n - 1);
    let all = arcs_upto(v, n);
    assert(all == a + piece);
    if n == 1 {
        assert(a.len() == 0);
        assert(all =~= piece);
        assert forall|p: u64| #[trigger] covered(all, p) <==> (p > last || p <= e[0].0) by {
            if p > last {
                assert(covers(all[0], p));
            } else if p <= e[0].0 {
                assert(covers(all[all.len() - 1], p));
            }
        }
    } else {
        lemma_arcs_cover(v, n - 1);
        let prev = e[n - 2].0;
        let right = e[n - 1].0;
        assert(prev <= right);
        assert(right <= last);
        let owners = owners_from(e, n - 1, v.owner_limit());
        if prev < right {
            assert(piece == seq![range_owners((prev + 1) as u64, right, owners)]);
        } else {
            assert(piece.len() == 0);
        }
        assert forall|k: int| 0 <= k < piece.len() implies prev < (#[trigger] piece[k]).start
            && piece[k].end == right by {}
        assert forall|k: int| 0 <= k < all.len() implies (#[trigger] all[k]).start <= all[k].end by {
            if k < a.len() {
                assert(all[k] == a[k]);
            }
        }
        assert forall|p: u64| #[trigger] covered(all, p) <==> (p > last || p <= right) by {
            if covered(all, p) {
                let k = choose|k: int| 0 <= k < all.len() && covers(all[k], p);
                if k < a.len() {
                    assert(all[k] == a[k]);
                    assert(covers(a[k], p));
                    assert(covered(a, p));
                } else {
                    assert(all[k] == piece[k - a.len()]);
                }
            }
            if p > last || p <= prev {
                assert(covered(a, p));
                let k = choose|k: int| 0 <= k < a.len() && covers(a[k], p);
                assert(covers(all[k], p));
            } else if p <= right {
                assert(covers(all[a.len() as int], p));
            }
        }
        assert forall|k1: int, k2: int, p: u64|
            0 <= k1 < k2 < all.len() implies !(#[trigger] covers(all[k1], p) && #[trigger] covers(all[k2], p)) by {
            if k2 < a.len() {
                assert(all[k1] == a[k1] && all[k2] == a[k2]);
            } else if covers(all[k1], p) && covers(all[k2], p) {
                assert(all[k2] == piece[k2 - a.len()]);
                assert(k1 < a.len());
                assert(all[k1] == a[k1]);
                assert(covers(a[k1], p));
                assert(covered(a, p));
                assert(p > prev && p <= right);
            }
        }
    }
}

/// The partition covers the whole hash space `[0, MAX]`, each hash exactly
/// once: its ranges are non-empty and pairwise disjoint, and every hash is in
/// one of them. This holds of every non-empty ring but one whose placements,
/// with two or more real nodes, all sit at one position.
pub proof fn lemma_partition_covers<T>(v: RingView<T>)
    requires
        v.wf(),
        v.entries.len() > 0,
        v.real_count() == 1 || v.entries[0].0 < v.entries[v.entries.len() - 1].0,
    ensures
        forall|k: int|
            0 <= k < v.partition().len() ==> (#[trigger] v.partition()[k]).start
                <= v.partition()[k].end,
        forall|p: u64| #[trigger] covered(v.partition(), p),
        forall|k1: int, k2: int, p: u64|
            0 <= k1 < v.partition().len() && 0 <= k2 < v.partition().len() && k1 != k2 ==> !(
            #[trigger] covers(v.partition()[k1], p) && #[trigger] covers(v.partition()[k2], p)),
{
    let part = v.partition();
    if v.real_count() == 1 {
        assert forall|p: u64| #[trigger] covered(part, p) by {
            assert(covers(part[0], p));
        }
    } else {
        let n = v.entries.len() as int;
        lemma_arcs_cover(v, n);
        assert forall|p: u64| #[trigger] covered(part, p) by {
            assert(p > v.entries[n - 1].0 || p <= v.entries[n - 1].0);
            assert(covered(arcs_upto(v, n), p));
        }
        assert forall|k1: int, k2: int, p: u64|
            0 <= k1 < part.len() && 0 <= k2 < part.len() && k1 != k2 implies !(#[trigger] covers(part[k1], p) && #[trigger] covers(part[k2], p)) by {
            if k1 < k2 {
                assert(!(covers(arcs_upto(v, n)[k1], p) && covers(arcs_upto(v, n)[k2], p)));
            } else {
                assert(!(covers(arcs_upto(v, n)[k2], p) && covers(arcs_upto(v, n)[k1], p)));
            }
        }
    }
}

/// When all placements sit at one position, no arc holds a hash.
proof fn lemma_arcs_flat<T>(v: RingView<T>, n: int)
    requires
        v.wf(),
        0 <= n <= v.entries.len(),
        v.entries.len() > 0,
        v.entries[0].0 == v.entries[v.entries.len() - 1].0,
    ensures
        arcs_upto(v, n).len() == 0,
    decreases n,
{
    if n > 0 {
        lemma_arcs_flat(v, n - 1);
        let e = v.entries;
        if n - 1 > 0 {
            assert(e[0].0 <= e[n - 2].0 && e[n - 2].0 <= e[n - 1].0 && e[n - 1].0 <= e[e.len()
                - 1].0);
        } else {
            assert(e[0].0 <= e[n - 1].0 && e[n - 1].0 <= e[e.len() - 1].0);
        }
    }
}

/// The ranges of any well-formed ring's partition are non-empty and pairwise
/// disjoint.
proof fn lemma_partition_disjoint<T>(v: RingView<T>)
    requires
        v.wf(),
    ensures
        forall|k: int|
            0 <= k < v.partition().len() ==> (#[trigger] v.partition()[k]).start
                <= v.partition()[k].end,
        forall|k1: int, k2: int, p: u64|
            0 <= k1 < v.partition().len() && 0 <= k2 < v.partition().len() && k1 != k2 ==> !(
            #[trigger] covers(v.partition()[k1], p) && #[trigger] covers(v.partition()[k2], p)),
{
    let e = v.entries;
    if e.len() == 0 {
        assert(v.real_count() == 0);
        assert(v.partition().len() == 0);
    } else if v.real_count() == 1 || e[0].0 < e[e.len() - 1].0 {
        lemma_partition_covers(v);
    } else {
        assert(e[0].0 <= e[e.len() - 1].0);
        lemma_arcs_flat(v, e.len() as int);
    }
}

proof fn lemma_filter_all<T>(s: Seq<T>, pred: spec_fn(T) -> bool)
    requires
        forall|i: int| 0 <= i < s.len() ==> pred(#[trigger] s[i]),
    ensures
        s.filter(pred) == s,
    decreases s.len(),
{
    reveal(Seq::filter);
    if s.len() > 0 {
        lemma_filter_all(s.drop_last(), pred);
        assert(s.drop_last().push(s.last()) =~= s);
    }
}

/// Planning a move to the same topology, with every node of the ring
/// available, yields no instruction, whatever the target: each range of the
/// ring meets only itself, and its owners already include the target.
pub proof fn lemma_same_topology_no_transfer<T>(v: RingView<T>, target: T, available: Seq<T>)
    requires
        v.wf(),
        forall|j: int| 0 <= j < v.entries.len() ==> available.contains(#[trigger] v.entries[j].1),
    ensures
        plan(target, v, v, available) == Seq::<ReplicasView<T>>::empty(),
        merged(plan(target, v, v, available)) == Seq::<ReplicasView<T>>::empty(),
{
    let part = v.partition();
    lemma_partition_disjoint(v);
    assert forall|k: int, m: int|
        0 <= k < part.len() && 0 <= m <= part.len() && part[k].nodes.contains(target) implies
        #[trigger] supply_row(target, part[k], part, available, m) == Seq::<
        ReplicasView<T>,
    >::empty() by {
        lemma_row_empty(v, target, available, k, m);
    }
    lemma_transfers_empty(v, target, available, part.len() as int);
    let t = sort_by_start(Seq::<ReplicasView<T>>::empty());
    assert(t.len() == 0);
}

proof fn lemma_transfers_empty<T>(v: RingView<T>, target: T, available: Seq<T>, n: int)
    requires
        0 <= n <= v.partition().len(),
        forall|k: int, m: int|
            0 <= k < v.partition().len() && 0 <= m <= v.partition().len() && v.partition()[k].nodes.contains(target)
                ==> #[trigger] supply_row(target, v.partition()[k], v.partition(), available, m)
                == Seq::<ReplicasView<T>>::empty(),
    ensures
        transfers(target, v.partition(), v.partition(), available, n) == Seq::<
            ReplicasView<T>,
        >::empty(),
    decreases n,
{
    let part = v.partition();
    if n > 0 {
        lemma_transfers_empty(v, target, available, n - 1);
        if part[n - 1].nodes.contains(target) {
            assert(supply_row(target, part[n - 1], part, available, part.len() as int) == Seq::<
                ReplicasView<T>,
            >::empty());
        }
        assert(transfers(target, part, part, available, n) =~= Seq::<ReplicasView<T>>::empty());
    }
}

proof fn lemma_row_empty<T>(v: RingView<T>, target: T, available: Seq<T>, k: int, m: int)
    requires
        v.wf(),
        forall|j: int| 0 <= j < v.entries.len() ==> available.contains(#[trigger] v.entries[j].1),
        0 <= k < v.partition().len(),
        0 <= m <= v.partition().len(),
        v.partition()[k].nodes.contains(target),
        forall|k: int|
            0 <= k < v.partition().len() ==> (#[trigger] v.partition()[k]).start
                <= v.partition()[k].end,
        forall|k1: int, k2: int, p: u64|
            0 <= k1 < v.partition().len() && 0 <= k2 < v.partition().len() && k1 != k2 ==> !(
            #[trigger] covers(v.partition()[k1], p) && #[trigger] covers(v.partition()[k2], p)),
    ensures
        supply_row(target, v.partition()[k], v.partition(), available, m) == Seq::<
            ReplicasView<T>,
        >::empty(),
    decreases m,
{
    let part = v.partition();
    if m > 0 {
        lemma_row_empty(v, target, available, k, m - 1);
        let j = m - 1;
        let a = part[k];
        let b = part[j];
        if j == k {
            lemma_partition_owner_count(v, k);
            let keep = |x: T| available.contains(x);
            assert forall|i: int| 0 <= i < a.nodes.len() implies keep(#[trigger] a.nodes[i]) by {
                let jj = choose|jj: int| 0 <= jj < v.entries.len() && a.nodes[i] == v.entries[jj].1;
            }
            lemma_filter_all(a.nodes, keep);
            assert(filter_available(a.nodes, available) == a.nodes);
            assert(overlap((a.start, a.end), (b.start, b.end)) == Some((a.start, a.end)));
        } else {
            match overlap((a.start, a.end), (b.start, b.end)) {
                Some(r) => {
                    assert(covers(a, r.0) && covers(b, r.0));
                },
                None => {},
            }
        }
        assert(supply_step(target, a, b, available) =~= Seq::<ReplicasView<T>>::empty());
        assert(supply_row(target, a, part, available, m) =~= Seq::<ReplicasView<T>>::empty());
    }
}

proof fn lemma_sort_two<T>(x: ReplicasView<T>, y: ReplicasView<T>)
    ensures
        sort_by_start(seq![x, y]) == if x.start <= y.start {
            seq![x, y]
        } else {
            seq![y, x]
        },
{
    let s = seq![x, y];
    let e = Seq::<ReplicasView<T>>::empty();
    assert(s.drop_last() =~= seq![x]);
    assert(seq![x].drop_last() =~= e);
    assert(sort_by_start(e) == e);
    assert(e.insert(0, x) =~= seq![x]);
    assert(sort_by_start(seq![x]) == seq![x]);
    assert(count_starts_upto(e, y.start) == 0);
    assert(count_starts_upto(seq![x], y.start) == if x.start <= y.start {
        1nat
    } else {
        0nat
    });
    assert(seq![x].insert(1, y) =~= seq![x, y]);
    assert(seq![x].insert(0, y) =~= seq![y, x]);
}

proof fn lemma_coalesce_one<T>(x: ReplicasView<T>)
    ensures
        coalesce(seq![x]) == seq![x],
{
    let e = Seq::<ReplicasView<T>>::empty();
    assert(seq![x].drop_last() =~= e);
    assert(coalesce(e) == e);
    assert(e.push(x) =~= seq![x]);
}

/// Two instructions with the same sources in the same order, the second
/// starting right after the first ends, coalesce into one, whichever order
/// they are given in.
pub proof fn lemma_coalesce_adjacent<T>(a: ReplicasView<T>, b: ReplicasView<T>)
    requires
        a.nodes == b.nodes,
        a.start <= a.end,
        a.end < u64::MAX,
        b.start == a.end + 1,
    ensures
        merged(seq![a, b]) == seq![range_owners(a.start, b.end, a.nodes)],
        merged(seq![b, a]) == seq![range_owners(a.start, b.end, a.nodes)],
{
    let t = seq![a, b];
    lemma_sort_two(a, b);
    lemma_sort_two(b, a);
    reveal(Seq::filter);
    let f = |x: ReplicasView<T>| x.nodes == a.nodes;
    assert(t.drop_last() =~= seq![a]);
    assert(seq![a].drop_last() =~= Seq::<ReplicasView<T>>::empty());
    assert(seq![a].filter(f) =~= seq![a]);
    assert(group_of(t, a.nodes) == t.filter(f));
    assert(t.filter(f) =~= seq![a, b]);
    lemma_coalesce_one(a);
    assert(coalesce(t) =~= seq![range_owners(a.start, b.end, a.nodes)]);
    assert(first_of_group(t, 0));
    assert(!first_of_group(t, 1));
    assert(merge_upto(t, 0) == Seq::<ReplicasView<T>>::empty());
    assert(merge_upto(t, 1) =~= coalesce(group_of(t, t[0].nodes)));
    assert(merge_upto(t, 2) =~= merge_upto(t, 1));
}

proof fn lemma_merge_two_groups<T>(x: ReplicasView<T>, y: ReplicasView<T>)
    requires
        x.nodes != y.nodes,
    ensures
        merge_upto(seq![x, y], 2) == seq![x, y],
{
    let t = seq![x, y];
    reveal(Seq::filter);
    let fx = |r: ReplicasView<T>| r.nodes == x.nodes;
    let fy = |r: ReplicasView<T>| r.nodes == y.nodes;
    let e = Seq::<ReplicasView<T>>::empty();
    assert(t.drop_last() =~= seq![x]);
    assert(seq![x].drop_last() =~= e);
    assert(e.filter(fx) == e);
    assert(e.filter(fy) == e);
    assert(e.push(x) =~= seq![x]);
    assert(seq![x].filter(fx) =~= seq![x]);
    assert(!fy(x));
    assert(seq![x].filter(fy) =~= e);
    assert(e.push(y) =~= seq![y]);
    assert(t.filter(fx) =~= seq![x]);
    assert(t.filter(fy) =~= seq![y]);
    assert(group_of(t, x.nodes) == t.filter(fx));
    assert(group_of(t, y.nodes) == t.filter(fy));
    lemma_coalesce_one(x);
    lemma_coalesce_one(y);
    assert(first_of_group(t, 0));
    assert(first_of_group(t, 1));
    assert(merge_upto(t, 0) == e);
    assert(merge_upto(t, 1) =~= seq![x]);
    assert(merge_upto(t, 2) =~= seq![x, y]);
}

/// Two instructions whose sources differ, as sets or only in order, stay
/// apart, even over contiguous ranges; they come sorted by start.
pub proof fn lemma_different_sources_stay_apart<T>(a: ReplicasView<T>, b: ReplicasView<T>)
    requires
        a.nodes != b.nodes,
    ensures
        merged(seq![a, b]) == if a.start <= b.start {
            seq![a, b]
        } else {
            seq![b, a]
        },
{
    lemma_sort_two(a, b);
    if a.start <= b.start {
        lemma_merge_two_groups(a, b);
    } else {
        lemma_merge_two_groups(b, a);
    }
}

/// The owners of a hash position and the partition depend on nothing but the
/// ring as a value (placements, replica count, virtual node count): rings
/// equal as values agree on both.
pub proof fn lemma_placement_is_a_function_of_the_ring<T>(v: RingView<T>, w: RingView<T>, h: u64)
    requires
        v == w,
    ensures
        v.owners_at(h) == w.owners_at(h),
        v.partition() == w.partition(),
{
}

proof fn lemma_collect_len<T>(s: Seq<T>, limit: nat)
    ensures
        collect_distinct(s, limit).len() <= s.len(),
    decreases s.len(),
{
    if s.len() > 0 {
        lemma_collect_len(s.drop_last(), limit);
    }
}

proof fn lemma_collect_all<T>(s: Seq<T>, limit: nat)
    requires
        limit >= s.len(),
    ensures
        forall|j: int| 0 <= j < s.len() ==> collect_distinct(s, limit).contains(#[trigger] s[j]),
    decreases s.len(),
{
    if s.len() > 0 {
        let d = s.drop_last();
        lemma_collect_all(d, limit);
        lemma_collect_len(d, limit);
        let p = collect_distinct(d, limit);
        let c = collect_distinct(s, limit);
        assert forall|j: int| 0 <= j < s.len() implies c.contains(#[trigger] s[j]) by {
            if j < d.len() {
                assert(d[j] == s[j]);
                assert(p.contains(d[j]));
                let m = choose|m: int| 0 <= m < p.len() && p[m] == d[j];
                assert(c[m] == s[j]);
            } else if p.contains(s.last()) {
                let m = choose|m: int| 0 <= m < p.len() && p[m] == s.last();
                assert(c[m] == s[j]);
            } else {
                assert(c[c.len() - 1] == s[j]);
            }
        }
    }
}

/// When a range may have as many owners as the ring has placements (one
/// virtual node per real node, and `replicas + 1` at least the node count),
/// every range is owned by every node of the ring, each once.
pub proof fn lemma_every_node_owns_every_range<T>(v: RingView<T>, k: int)
    requires
        v.wf(),
        v.owner_limit() >= v.entries.len(),
        0 <= k < v.partition().len(),
    ensures
        v.partition()[k].nodes.no_duplicates(),
        forall|j: int| 0 <= j < v.entries.len() ==> v.partition()[k].nodes.contains(
            #[trigger] v.entries[j].1,
        ),
{
    lemma_partition_owner_count(v, k);
    let e = v.entries;
    if v.real_count() == 1 {
        assert(e.len() <= 1);
        assert forall|j: int| 0 <= j < e.len() implies v.partition()[k].nodes.contains(
            #[trigger] e[j].1,
        ) by {
            assert(v.partition()[k].nodes[0] == e[j].1);
        }
    } else {
        let n = e.len() as int;
        lemma_arcs_owners(v, n, k);
        let i = choose|i: int|
            0 <= i < n && arcs_upto(v, n)[k].nodes == owners_from(e, i, v.owner_limit());
        let s = rotate(e, i).map_values(|x: (u64, T, usize)| x.1);
        lemma_collect_all(s, v.owner_limit());
        assert forall|j: int| 0 <= j < e.len() implies v.partition()[k].nodes.contains(
            #[trigger] e[j].1,
        ) by {
            if j >= i {
                assert(s[j - i] == e[j].1);
            } else {
                assert(s[n - i + j] == e[j].1);
            }
        }
    }
}

proof fn lemma_transfers_none<T>(
    target: T,
    to: Seq<ReplicasView<T>>,
    from: Seq<ReplicasView<T>>,
    available: Seq<T>,
    n: int,
)
    requires
        0 <= n <= to.len(),
        forall|k: int| 0 <= k < to.len() ==> !(#[trigger] to[k].nodes.contains(target)),
    ensures
        transfers(target, to, from, available, n) == Seq::<ReplicasView<T>>::empty(),
    decreases n,
{
    if n > 0 {
        lemma_transfers_none(target, to, from, available, n - 1);
        assert(!to[n - 1].nodes.contains(target));
        assert(transfers(target, to, from, available, n) =~= Seq::<ReplicasView<T>>::empty());
    }
}

/// A target that is not a node of the new topology has nothing to copy: no
/// range of that topology names it as an owner.
pub proof fn lemma_non_member_gets_nothing<T>(
    dest: RingView<T>,
    source: RingView<T>,
    target: T,
    available: Seq<T>,
)
    requires
        dest.wf(),
        forall|j: int| 0 <= j < dest.entries.len() ==> #[trigger] dest.entries[j].1 != target,
    ensures
        merged(plan(target, dest, source, available)) == Seq::<ReplicasView<T>>::empty(),
{
    let to = dest.partition();
    assert forall|k: int| 0 <= k < to.len() implies !(#[trigger] to[k].nodes.contains(target)) by {
        lemma_partition_owner_count(dest, k);
        if to[k].nodes.contains(target) {
            let m = choose|m: int| 0 <= m < to[k].nodes.len() && to[k].nodes[m] == target;
            let j = choose|j: int| 0 <= j < dest.entries.len() && to[k].nodes[m] == dest.entries[j].1;
        }
    }
    lemma_transfers_none(target, to, source.partition(), available, to.len() as int);
    assert(sort_by_start(Seq::<ReplicasView<T>>::empty()).len() == 0);
}

} // verus!
