use std::ops::RangeInclusive;
use vstd::prelude::*;

use super::crud::owners_from;
use super::{clone_node, clone_nodes, contains_node, node_laws, same_nodes, HashRing, RingView};

verus! {

/// Relies on `RangeInclusive::start`: the range's lower bound, the one it was
/// built with.
pub assume_specification<Idx>[ RangeInclusive::<Idx>::start ](r: &RangeInclusive<Idx>) -> (s: &Idx)
    ensures
        *s == r@.start,
;

/// Relies on `RangeInclusive::end`: the range's upper bound, the one it was
/// built with.
pub assume_specification<Idx>[ RangeInclusive::<Idx>::end ](r: &RangeInclusive<Idx>) -> (s: &Idx)
    ensures
        *s == r@.end,
;

/// Relies on `RangeInclusive`'s `Clone`, which the derived `Clone` of
/// `Replicas` calls; nothing is stated of the copy.
pub assume_specification<Idx: Clone>[ <RangeInclusive<Idx> as Clone>::clone ](
    r: &RangeInclusive<Idx>,
) -> RangeInclusive<Idx>;

/// A range of hashes and the nodes that hold the keys hashed into it. The
/// first node is the primary, the others are replicas; in a copy instruction
/// they are the sources to try, in order. Several `Replicas` may name the same
/// node.
#[derive(Clone, Debug, PartialEq)]
pub struct Replicas<T> {
    pub hash_range: RangeInclusive<u64>,
    pub nodes: Vec<T>,
}

/// A `Replicas` as values: the inclusive bounds and the node list.
pub struct ReplicasView<T> {
    pub start: u64,
    pub end: u64,
    pub nodes: Seq<T>,
}

impl<T> View for Replicas<T> {
    type V = ReplicasView<T>;

    open spec fn view(&self) -> ReplicasView<T> {
        ReplicasView { start: self.hash_range@.start, end: self.hash_range@.end, nodes: self.nodes@ }
    }
}

pub open spec fn range_owners<T>(start: u64, end: u64, nodes: Seq<T>) -> ReplicasView<T> {
    ReplicasView { start, end, nodes }
}

pub open spec fn views<T>(s: Seq<Replicas<T>>) -> Seq<ReplicasView<T>> {
    s.map_values(|r: Replicas<T>| r@)
}

fn make_replicas<T>(start: u64, end: u64, nodes: Vec<T>) -> (r: Replicas<T>)
    ensures
        r@ == range_owners(start, end, nodes@),
{
    Replicas { hash_range: RangeInclusive::new(start, end), nodes }
}

fn copy_replicas<T: PartialEq + Clone>(r: &Replicas<T>) -> (c: Replicas<T>)
    requires
        node_laws::<T>(),
    ensures
        c@ == r@,
{
    make_replicas(*r.hash_range.start(), *r.hash_range.end(), clone_nodes(&r.nodes))
}

// ---------------------------------------------------------------------------
// Partition of the hash space
// ---------------------------------------------------------------------------

/// The ranges owned through placement `i`: the arc from just after the
/// previous placement (the last one, for the first placement) up to and
/// including placement `i`. The arc that wraps past the largest hash is split
/// in two at 0; an empty arc gives nothing.
pub open spec fn arc_ranges<T>(v: RingView<T>, i: int) -> Seq<ReplicasView<T>> {
    let e = v.entries;
    let prev = if i == 0 {
        e[e.len() - 1].0
    } else {
        e[i - 1].0
    };
    let right = e[i].0;
    let owners = owners_from(e, i, v.owner_limit());
    if prev > right {
        (if prev < u64::MAX {
            seq![range_owners((prev + 1) as u64, u64::MAX, owners)]
        } else {
            seq![]
        }) + seq![range_owners(0, right, owners)]
    } else if prev < right {
        seq![range_owners((prev + 1) as u64, right, owners)]
    } else {
        seq![]
    }
}

/// The ranges of the first `n` placements, in ring order.
pub open spec fn arcs_upto<T>(v: RingView<T>, n: int) -> Seq<ReplicasView<T>>
    decreases n,
{
    if n <= 0 {
        seq![]
    } else {
        arcs_upto(v, n - 1) + arc_ranges(v, n - 1)
    }
}

impl<T> RingView<T> {
    /// The partition of the hash space into ranges with their owners. A ring
    /// of one real node owns everything, `[0, MAX]`; otherwise each placement
    /// contributes the ranges of its arc.
    pub open spec fn partition(self) -> Seq<ReplicasView<T>> {
        if self.real_count() == 1 {
            seq![range_owners(0, u64::MAX, seq![self.entries[0].1])]
        } else {
            arcs_upto(self, self.entries.len() as int)
        }
    }
}

// ---------------------------------------------------------------------------
// Copy instructions
// ---------------------------------------------------------------------------

/// The common part of two inclusive ranges, if any.
pub open spec fn overlap(a: (u64, u64), b: (u64, u64)) -> Option<(u64, u64)> {
    let s = if a.0 >= b.0 {
        a.0
    } else {
        b.0
    };
    let e = if a.1 <= b.1 {
        a.1
    } else {
        b.1
    };
    if s <= e {
        Some((s, e))
    } else {
        None
    }
}

/// The nodes of `nodes` that are among `available`, in their order.
pub open spec fn filter_available<T>(nodes: Seq<T>, available: Seq<T>) -> Seq<T> {
    nodes.filter(|x: T| available.contains(x))
}

/// The instruction, if any, for the part of `needed` that `supply` covers:
/// copy from the available owners of `supply`, unless `target` is already
/// one of them.
pub open spec fn supply_step<T>(
    target: T,
    needed: ReplicasView<T>,
    supply: ReplicasView<T>,
    available: Seq<T>,
) -> Seq<ReplicasView<T>> {
    match overlap((needed.start, needed.end), (supply.start, supply.end)) {
        Some(r) => {
            let sources = filter_available(supply.nodes, available);
            if sources.contains(target) {
                seq![]
            } else {
                seq![range_owners(r.0, r.1, sources)]
            }
        },
        None => seq![],
    }
}

/// The instructions for `needed` against the first `m` ranges of `from`.
pub open spec fn supply_row<T>(
    target: T,
    needed: ReplicasView<T>,
    from: Seq<ReplicasView<T>>,
    available: Seq<T>,
    m: int,
) -> Seq<ReplicasView<T>>
    decreases m,
{
    if m <= 0 {
        seq![]
    } else {
        supply_row(target, needed, from, available, m - 1) + supply_step(
            target,
            needed,
            from[m - 1],
            available,
        )
    }
}

/// The instructions, before coalescing, for the first `n` ranges of `to`
/// that `target` owns, against every range of `from`.
pub open spec fn transfers<T>(
    target: T,
    to: Seq<ReplicasView<T>>,
    from: Seq<ReplicasView<T>>,
    available: Seq<T>,
    n: int,
) -> Seq<ReplicasView<T>>
    decreases n,
{
    if n <= 0 {
        seq![]
    } else {
        transfers(target, to, from, available, n - 1) + if to[n - 1].nodes.contains(target) {
            supply_row(target, to[n - 1], from, available, from.len() as int)
        } else {
            seq![]
        }
    }
}

/// What `target` has to copy to go from the topology `source` to `dest`,
/// copying only from `available` nodes, before coalescing.
pub open spec fn plan<T>(
    target: T,
    dest: RingView<T>,
    source: RingView<T>,
    available: Seq<T>,
) -> Seq<ReplicasView<T>> {
    let to = dest.partition();
    transfers(target, to, source.partition(), available, to.len() as int)
}

// ---------------------------------------------------------------------------
// Coalescing
// ---------------------------------------------------------------------------

/// The number of ranges of `s` that start at or before `h`.
pub open spec fn count_starts_upto<T>(s: Seq<ReplicasView<T>>, h: u64) -> nat
    decreases s.len(),
{
    if s.len() == 0 {
        0
    } else {
        count_starts_upto(s.drop_last(), h) + if s.last().start <= h {
            1nat
        } else {
            0nat
        }
    }
}

pub open spec fn sorted_by_start<T>(s: Seq<ReplicasView<T>>) -> bool {
    forall|i: int, j: int| 0 <= i <= j < s.len() ==> s[i].start <= s[j].start
}

/// `s` in ascending order of start; ranges with equal starts keep their order.
pub open spec fn sort_by_start<T>(s: Seq<ReplicasView<T>>) -> Seq<ReplicasView<T>>
    decreases s.len(),
{
    if s.len() == 0 {
        s
    } else {
        let p = sort_by_start(s.drop_last());
        p.insert(count_starts_upto(p, s.last().start) as int, s.last())
    }
}

/// Folds `s` left to right, joining each range to the one before it when it
/// starts right after that one ends.
pub open spec fn coalesce<T>(s: Seq<ReplicasView<T>>) -> Seq<ReplicasView<T>>
    decreases s.len(),
{
    if s.len() == 0 {
        seq![]
    } else {
        let p = coalesce(s.drop_last());
        let r = s.last();
        if p.len() > 0 && p.last().end < u64::MAX && r.start == p.last().end + 1 {
            p.drop_last().push(range_owners(p.last().start, r.end, p.last().nodes))
        } else {
            p.push(r)
        }
    }
}

/// The ranges of `s` whose node list is exactly `nodes`, in order.
pub open spec fn group_of<T>(s: Seq<ReplicasView<T>>, nodes: Seq<T>) -> Seq<ReplicasView<T>> {
    s.filter(|x: ReplicasView<T>| x.nodes == nodes)
}

/// No range before `i` has the node list of range `i`.
pub open spec fn first_of_group<T>(s: Seq<ReplicasView<T>>, i: int) -> bool {
    forall|j: int| 0 <= j < i ==> s[j].nodes != s[i].nodes
}

/// The coalesced groups of the node lists that first appear among the first
/// `n` ranges of `s`, in that order.
pub open spec fn merge_upto<T>(s: Seq<ReplicasView<T>>, n: int) -> Seq<ReplicasView<T>>
    decreases n,
{
    if n <= 0 {
        seq![]
    } else {
        merge_upto(s, n - 1) + if first_of_group(s, n - 1) {
            coalesce(group_of(s, s[n - 1].nodes))
        } else {
            seq![]
        }
    }
}

/// Sorts by start, groups by identical node list (same nodes, same order),
/// and coalesces each group; groups come in order of first appearance.
pub open spec fn merged<T>(s: Seq<ReplicasView<T>>) -> Seq<ReplicasView<T>> {
    let t = sort_by_start(s);
    merge_upto(t, t.len() as int)
}

impl<T, S> HashRing<T, S> where T: PartialEq + Clone {
    /// Partitions the hash space into ranges, each with its owners (primary
    /// first), in ring order. The owners of the arc that ends at a placement
    /// are found walking forward from that placement.
    pub fn get_hash_ranges(&self) -> (r: Vec<Replicas<T>>)
        requires
            self@.wf(),
            node_laws::<T>(),
        ensures
            views(r@) == self@.partition(),
    {
        let mut out: Vec<Replicas<T>> = Vec::new();
        if self.len() == 1 {
            let mut nodes: Vec<T> = Vec::new();
            nodes.push(clone_node(&self.ring[0].node));
            out.push(make_replicas(0, u64::MAX, nodes));
            assert(views(out@) =~= self@.partition());
            return out;
        }
        let len = self.ring.len();
        let limit = self.owner_limit();
        let ghost v = self@;
        let mut i: usize = 0;
        assert(views(out@) =~= arcs_upto(v, 0));
        while i < len
            invariant
                v == self@,
                v.wf(),
                node_laws::<T>(),
                len == v.entries.len(),
                limit == v.owner_limit(),
                v.real_count() != 1,
                i <= len,
                views(out@) == arcs_upto(v, i as int),
            decreases len - i,
        {
            let prev = if i == 0 {
                self.ring[len - 1].key
            } else {
                self.ring[i - 1].key
            };
            let right = self.ring[i].key;
            let owners = self.owners_from_index(i, limit);
            let ghost before = views(out@);
            if prev > right {
                if prev < u64::MAX {
                    out.push(make_replicas(prev + 1, u64::MAX, clone_nodes(&owners)));
                }
                out.push(make_replicas(0, right, owners));
            } else if prev < right {
                out.push(make_replicas(prev + 1, right, owners));
            }
            assert(views(out@) =~= before + arc_ranges(v, i as int));
            i = i + 1;
        }
        out
    }
}

proof fn lemma_count_starts_split<T>(s: Seq<ReplicasView<T>>, h: u64, r: int)
    requires
        0 <= r <= s.len(),
        forall|i: int| 0 <= i < r ==> s[i].start <= h,
        forall|i: int| r <= i < s.len() ==> s[i].start > h,
    ensures
        count_starts_upto(s, h) == r,
    decreases s.len(),
{
    if s.len() > 0 {
        if r == s.len() {
            lemma_count_starts_split(s.drop_last(), h, r - 1);
        } else {
            lemma_count_starts_split(s.drop_last(), h, r);
        }
    }
}

proof fn lemma_insert_by_start<T>(p: Seq<ReplicasView<T>>, k: int, x: ReplicasView<T>)
    requires
        sorted_by_start(p),
        0 <= k <= p.len(),
        forall|i: int| 0 <= i < k ==> p[i].start <= x.start,
        forall|i: int| k <= i < p.len() ==> p[i].start > x.start,
    ensures
        sorted_by_start(p.insert(k, x)),
{
    let f = p.insert(k, x);
    assert forall|i: int, j: int| 0 <= i <= j < f.len() implies f[i].start <= f[j].start by {
        if j < k {
            assert(p[i].start <= p[j].start);
        } else if i > k {
            assert(p[i - 1].start <= p[j - 1].start);
        } else if i < k && j > k {
            assert(p[i].start <= p[j - 1].start);
        }
    }
}

/// Stable insertion sort of a list of ranges by their start.
fn sort_replicas<T: PartialEq + Clone>(v: &Vec<Replicas<T>>) -> (r: Vec<Replicas<T>>)
    requires
        node_laws::<T>(),
    ensures
        views(r@) == sort_by_start(views(v@)),
{
    let ghost s = views(v@);
    let mut out: Vec<Replicas<T>> = Vec::new();
    let mut i: usize = 0;
    assert(s.take(0) =~= Seq::<ReplicasView<T>>::empty());
    while i < v.len()
        invariant
            node_laws::<T>(),
            s == views(v@),
            i <= v@.len(),
            views(out@) == sort_by_start(s.take(i as int)),
            sorted_by_start(views(out@)),
        decreases v@.len() - i,
    {
        let h = *v[i].hash_range.start();
        let ghost p = views(out@);
        let mut k: usize = 0;
        while k < out.len() && *out[k].hash_range.start() <= h
            invariant
                p == views(out@),
                k <= p.len(),
                forall|j: int| 0 <= j < k ==> p[j].start <= h,
            decreases p.len() - k,
        {
            k = k + 1;
        }
        proof {
            assert forall|j: int| k <= j < p.len() implies p[j].start > h by {
                assert(p[k as int].start <= p[j].start);
            }
            lemma_count_starts_split(p, h, k as int);
            lemma_insert_by_start(p, k as int, s[i as int]);
            assert(s.take(i + 1).drop_last() =~= s.take(i as int));
        }
        out.insert(k, copy_replicas(&v[i]));
        assert(views(out@) =~= p.insert(k as int, s[i as int]));
        i = i + 1;
    }
    assert(s.take(v@.len() as int) =~= s);
    out
}

/// Whether a range before `i` has the same node list as range `i`.
fn seen_before<T: PartialEq + Clone>(v: &Vec<Replicas<T>>, i: usize) -> (r: bool)
    requires
        node_laws::<T>(),
        i < v@.len(),
    ensures
        r == !first_of_group(views(v@), i as int),
{
    let mut j: usize = 0;
    while j < i
        invariant
            node_laws::<T>(),
            i < v@.len(),
            j <= i,
            forall|k: int| 0 <= k < j ==> views(v@)[k].nodes != views(v@)[i as int].nodes,
        decreases i - j,
    {
        if same_nodes(&v[j].nodes, &v[i].nodes) {
            assert(views(v@)[j as int].nodes == views(v@)[i as int].nodes);
            return true;
        }
        j = j + 1;
    }
    false
}

/// The ranges of `v` whose node list is `nodes`, coalesced.
fn coalesce_group<T: PartialEq + Clone>(v: &Vec<Replicas<T>>, nodes: &Vec<T>) -> (r: Vec<
    Replicas<T>,
>)
    requires
        node_laws::<T>(),
    ensures
        views(r@) == coalesce(group_of(views(v@), nodes@)),
{
    let ghost s = views(v@);
    let mut out: Vec<Replicas<T>> = Vec::new();
    let mut j: usize = 0;
    proof {
        reveal(Seq::filter);
        assert(s.take(0) =~= Seq::<ReplicasView<T>>::empty());
    }
    while j < v.len()
        invariant
            node_laws::<T>(),
            s == views(v@),
            j <= v@.len(),
            views(out@) == coalesce(group_of(s.take(j as int), nodes@)),
        decreases v@.len() - j,
    {
        let ghost g = group_of(s.take(j as int), nodes@);
        proof {
            reveal(Seq::filter);
            assert(s.take(j + 1).drop_last() =~= s.take(j as int));
        }
        if same_nodes(&v[j].nodes, nodes) {
            proof {
                assert(group_of(s.take(j + 1), nodes@) == g.push(s[j as int]));
                assert(g.push(s[j as int]).drop_last() =~= g);
            }
            let ghost c = views(out@);
            let n = out.len();
            if n > 0 && *out[n - 1].hash_range.end() < u64::MAX && *v[j].hash_range.start()
                == *out[n - 1].hash_range.end() + 1 {
                let prev = out.pop();
                match prev {
                    Some(prev) => {
                        assert(views(out@) =~= c.drop_last());
                        let st = *prev.hash_range.start();
                        out.push(make_replicas(st, *v[j].hash_range.end(), prev.nodes));
                        assert(views(out@) =~= c.drop_last().push(
                            range_owners(c.last().start, s[j as int].end, c.last().nodes),
                        ));
                    },
                    None => {},
                }
            } else {
                out.push(copy_replicas(&v[j]));
                assert(views(out@) =~= c.push(s[j as int]));
            }
        } else {
            assert(group_of(s.take(j + 1), nodes@) == g);
        }
        j = j + 1;
    }
    assert(s.take(v@.len() as int) =~= s);
    out
}

/// The nodes of `nodes` that are among `available`, in order.
fn retain_available<T: PartialEq + Clone>(nodes: &Vec<T>, available: &[T]) -> (r: Vec<T>)
    requires
        node_laws::<T>(),
    ensures
        r@ == filter_available(nodes@, available@),
{
    let ghost s = nodes@;
    let ghost keep = |x: T| available@.contains(x);
    let mut out: Vec<T> = Vec::new();
    let mut i: usize = 0;
    proof {
        reveal(Seq::filter);
        assert(s.take(0) =~= Seq::<T>::empty());
    }
    while i < nodes.len()
        invariant
            node_laws::<T>(),
            s == nodes@,
            keep == (|x: T| available@.contains(x)),
            i <= s.len(),
            out@ == s.take(i as int).filter(keep),
        decreases s.len() - i,
    {
        proof {
            reveal(Seq::filter);
            assert(s.take(i + 1).drop_last() =~= s.take(i as int));
        }
        if contains_node(available, &nodes[i]) {
            out.push(clone_node(&nodes[i]));
        }
        i = i + 1;
    }
    assert(s.take(s.len() as int) =~= s);
    out
}

/// The common part of two ranges, if they meet.
fn intersect(a: &RangeInclusive<u64>, b: &RangeInclusive<u64>) -> (r: Option<RangeInclusive<u64>>)
    ensures
        match overlap((a@.start, a@.end), (b@.start, b@.end)) {
            Some(x) => r.is_some() && r.unwrap()@.start == x.0 && r.unwrap()@.end == x.1,
            None => r.is_none(),
        },
{
    let a_start = *a.start();
    let b_start = *b.start();
    let a_end = *a.end();
    let b_end = *b.end();
    let start = if a_start >= b_start {
        a_start
    } else {
        b_start
    };
    let end = if a_end <= b_end {
        a_end
    } else {
        b_end
    };
    if start <= end {
        Some(RangeInclusive::new(start, end))
    } else {
        None
    }
}

impl<T, S> HashRing<T, S> where T: PartialEq + Clone {
    /// Coalesces copy instructions: sorted by start, those with an identical
    /// node list (same nodes in the same order) are joined where one range
    /// ends right before the next starts. Groups come in the order in which
    /// their node list first appears among the sorted instructions.
    pub fn merge_replicas(&self, replicas: Vec<Replicas<T>>) -> (r: Vec<Replicas<T>>)
        requires
            node_laws::<T>(),
        ensures
            views(r@) == merged(views(replicas@)),
    {
        let sorted = sort_replicas(&replicas);
        let ghost t = views(sorted@);
        let mut out: Vec<Replicas<T>> = Vec::new();
        let mut i: usize = 0;
        while i < sorted.len()
            invariant
                node_laws::<T>(),
                t == views(sorted@),
                t == sort_by_start(views(replicas@)),
                i <= t.len(),
                views(out@) == merge_upto(t, i as int),
            decreases t.len() - i,
        {
            if !seen_before(&sorted, i) {
                let ghost before = views(out@);
                let mut group = coalesce_group(&sorted, &sorted[i].nodes);
                let ghost gv = views(group@);
                out.append(&mut group);
                assert(views(out@) =~= before + gv);
            }
            i = i + 1;
        }
        out
    }

    /// The copy instructions that bring `target` up to date when the cluster
    /// moves from the topology `source` to this one: for each range that
    /// `target` owns here, and each range of `source` that meets it, copy the
    /// common part from the owners in `source` that are among
    /// `available_nodes` (in their order), unless `target` is one of them;
    /// the result is coalesced by `merge_replicas`. Empty when `target` is
    /// not in this ring.
    pub fn find_sources(&self, target: &T, source: &HashRing<T, S>, available_nodes: &[T]) -> (r:
        Vec<Replicas<T>>)
        requires
            self@.wf(),
            source@.wf(),
            node_laws::<T>(),
        ensures
            views(r@) == merged(plan(*target, self@, source@, available_nodes@)),
    {
        let from = source.get_hash_ranges();
        let to = self.get_hash_ranges();
        let ghost tv = views(to@);
        let ghost fv = views(from@);
        let ghost av = available_nodes@;
        let mut sources: Vec<Replicas<T>> = Vec::new();
        let mut k: usize = 0;
        while k < to.len()
            invariant
                node_laws::<T>(),
                tv == views(to@),
                fv == views(from@),
                av == available_nodes@,
                k <= tv.len(),
                views(sources@) == transfers(*target, tv, fv, av, k as int),
            decreases tv.len() - k,
        {
            let ghost done = views(sources@);
            if contains_node(to[k].nodes.as_slice(), target) {
                let mut j: usize = 0;
                while j < from.len()
                    invariant
                        node_laws::<T>(),
                        tv == views(to@),
                        fv == views(from@),
                        av == available_nodes@,
                        k < tv.len(),
                        j <= fv.len(),
                        views(sources@) == done + supply_row(*target, tv[k as int], fv, av, j as int),
                    decreases fv.len() - j,
                {
                    let ghost row = views(sources@);
                    match intersect(&to[k].hash_range, &from[j].hash_range) {
                        Some(range) => {
                            let nodes = retain_available(&from[j].nodes, available_nodes);
                            if !contains_node(nodes.as_slice(), target) {
                                sources.push(Replicas { hash_range: range, nodes });
                            }
                        },
                        None => {},
                    }
                    assert(views(sources@) =~= row + supply_step(
                        *target,
                        tv[k as int],
                        fv[j as int],
                        av,
                    ));
                    j = j + 1;
                }
            }
            assert(views(sources@) =~= transfers(*target, tv, fv, av, k + 1));
            k = k + 1;
        }
        self.merge_replicas(sources)
    }
}

} // verus!
