use std::fmt::Debug;
use std::hash::{BuildHasher, Hash};
use vstd::prelude::*;

use super::{
    clone_node, contains_node, count_node, entries_of, node_laws, same_node, sorted_by_position, HashRing,
    Node, RingView,
};

verus! {

/// The number of placements strictly before position `h`. In a sorted ring
/// this is the index of the first placement at or after `h`.
pub open spec fn count_below<T>(e: Seq<(u64, T, usize)>, h: u64) -> nat
    decreases e.len(),
{
    if e.len() == 0 {
        0
    } else {
        count_below(e.drop_last(), h) + if e.last().0 < h {
            1nat
        } else {
            0nat
        }
    }
}

/// The number of placements at or before position `h`. In a sorted ring this
/// is where a new placement at `h` goes, after those already there.
pub open spec fn count_upto<T>(e: Seq<(u64, T, usize)>, h: u64) -> nat
    decreases e.len(),
{
    if e.len() == 0 {
        0
    } else {
        count_upto(e.drop_last(), h) + if e.last().0 <= h {
            1nat
        } else {
            0nat
        }
    }
}

/// `s` read from index `n` on, wrapping round to its start.
pub open spec fn rotate<A>(s: Seq<A>, n: int) -> Seq<A> {
    s.skip(n) + s.take(n)
}

/// The distinct values of `s` in order of first appearance, at most `limit`.
pub open spec fn collect_distinct<T>(s: Seq<T>, limit: nat) -> Seq<T>
    decreases s.len(),
{
    if s.len() == 0 {
        seq![]
    } else {
        let p = collect_distinct(s.drop_last(), limit);
        if p.len() < limit && !p.contains(s.last()) {
            p.push(s.last())
        } else {
            p
        }
    }
}

/// The nodes met walking the ring forward from placement `start`, each
/// counted once, at most `limit` of them.
pub open spec fn owners_from<T>(e: Seq<(u64, T, usize)>, start: int, limit: nat) -> Seq<T> {
    collect_distinct(rotate(e, start).map_values(|x: (u64, T, usize)| x.1), limit)
}

impl<T> RingView<T> {
    /// The owners of a key hashed to `h`: from the first placement at or after
    /// `h` (wrapping to the first placement past the largest), the first
    /// `owner_limit` distinct nodes. An empty ring has none.
    pub open spec fn owners_at(self, h: u64) -> Seq<T> {
        if self.entries.len() == 0 {
            seq![]
        } else {
            owners_from(self.entries, count_below(self.entries, h) as int, self.owner_limit())
        }
    }
}

proof fn lemma_count_below_split<T>(e: Seq<(u64, T, usize)>, h: u64, r: int)
    requires
        0 <= r <= e.len(),
        forall|i: int| 0 <= i < r ==> e[i].0 < h,
        forall|i: int| r <= i < e.len() ==> e[i].0 >= h,
    ensures
        count_below(e, h) == r,
    decreases e.len(),
{
    if e.len() > 0 {
        if r == e.len() {
            lemma_count_below_split(e.drop_last(), h, r - 1);
        } else {
            lemma_count_below_split(e.drop_last(), h, r);
        }
    }
}

proof fn lemma_count_upto_split<T>(e: Seq<(u64, T, usize)>, h: u64, r: int)
    requires
        0 <= r <= e.len(),
        forall|i: int| 0 <= i < r ==> e[i].0 <= h,
        forall|i: int| r <= i < e.len() ==> e[i].0 > h,
    ensures
        count_upto(e, h) == r,
    decreases e.len(),
{
    if e.len() > 0 {
        if r == e.len() {
            lemma_count_upto_split(e.drop_last(), h, r - 1);
        } else {
            lemma_count_upto_split(e.drop_last(), h, r);
        }
    }
}

/// Adding one more value to the walk: `collect_distinct` of a prefix one
/// longer is one step of the fold.
proof fn lemma_collect_step<T>(s: Seq<T>, i: int, limit: nat)
    requires
        0 <= i < s.len(),
    ensures
        collect_distinct(s.take(i + 1), limit) == ({
            let p = collect_distinct(s.take(i), limit);
            if p.len() < limit && !p.contains(s[i]) {
                p.push(s[i])
            } else {
                p
            }
        }),
{
    assert(s.take(i + 1).drop_last() =~= s.take(i));
}

/// Once `limit` values are collected, the rest of the walk adds nothing.
proof fn lemma_collect_full<T>(s: Seq<T>, i: int, limit: nat)
    requires
        0 <= i <= s.len(),
        collect_distinct(s.take(i), limit).len() >= limit,
    ensures
        collect_distinct(s, limit) == collect_distinct(s.take(i), limit),
    decreases s.len(),
{
    if i == s.len() {
        assert(s.take(i) =~= s);
    } else {
        assert(s.drop_last().take(i) =~= s.take(i));
        lemma_collect_full(s.drop_last(), i, limit);
    }
}

/// The collected values are distinct, at most `limit`, all from `s`, and the
/// first value of `s` is first among them when anything is collected.
pub proof fn lemma_collect_distinct<T>(s: Seq<T>, limit: nat)
    ensures
        collect_distinct(s, limit).len() <= limit,
        collect_distinct(s, limit).no_duplicates(),
        forall|k: int|
            0 <= k < collect_distinct(s, limit).len() ==> s.contains(
                #[trigger] collect_distinct(s, limit)[k],
            ),
        s.len() > 0 && limit > 0 ==> collect_distinct(s, limit).len() >= 1 && collect_distinct(
            s,
            limit,
        )[0] == s[0],
    decreases s.len(),
{
    if s.len() > 0 {
        let d = s.drop_last();
        lemma_collect_distinct(d, limit);
        let p = collect_distinct(d, limit);
        assert forall|k: int|
            0 <= k < collect_distinct(s, limit).len() implies s.contains(
            #[trigger] collect_distinct(s, limit)[k],
        ) by {
            if k < p.len() {
                let j = choose|j: int| 0 <= j < d.len() && d[j] == p[k];
                assert(s[j] == p[k]);
            } else {
                assert(s[s.len() - 1] == s.last());
            }
        }
        if d.len() == 0 {
            assert(p.len() == 0);
        } else {
            assert(d[0] == s[0]);
        }
    }
}

/// `e` with `x` placed after every placement at or before its position.
pub open spec fn insert_sorted<T>(e: Seq<(u64, T, usize)>, x: (u64, T, usize)) -> Seq<
    (u64, T, usize),
> {
    e.insert(count_upto(e, x.0) as int, x)
}

/// `e` with each of `xs` placed in turn by `insert_sorted`: what a stable sort
/// of `e` followed by `xs` gives.
pub open spec fn insert_all<T>(e: Seq<(u64, T, usize)>, xs: Seq<(u64, T, usize)>) -> Seq<
    (u64, T, usize),
>
    decreases xs.len(),
{
    if xs.len() == 0 {
        e
    } else {
        insert_sorted(insert_all(e, xs.drop_last()), xs.last())
    }
}

/// The virtual nodes of `node`: the `i`-th at position `pos[i]`.
pub open spec fn placements<T>(node: T, pos: Seq<u64>) -> Seq<(u64, T, usize)> {
    Seq::new(pos.len(), |i: int| (pos[i], node, i as usize))
}

/// `e` with the virtual nodes of each of `nodes` added in turn, the `k`-th
/// node's at positions `pos[k]`.
pub open spec fn insert_nodes<T>(e: Seq<(u64, T, usize)>, nodes: Seq<T>, pos: Seq<Seq<u64>>) -> Seq<
    (u64, T, usize),
>
    decreases nodes.len(),
{
    if nodes.len() == 0 {
        e
    } else {
        insert_all(
            insert_nodes(e, nodes.drop_last(), pos.drop_last()),
            placements(nodes.last(), pos[nodes.len() - 1]),
        )
    }
}

proof fn lemma_count_upto_split_rev<T>(e: Seq<(u64, T, usize)>, h: u64)
    requires
        sorted_by_position(e),
    ensures
        count_upto(e, h) <= e.len(),
        forall|i: int| 0 <= i < count_upto(e, h) ==> e[i].0 <= h,
        forall|i: int| count_upto(e, h) <= i < e.len() ==> e[i].0 > h,
    decreases e.len(),
{
    if e.len() > 0 {
        let d = e.drop_last();
        lemma_count_upto_split_rev(d, h);
        let c = count_upto(d, h) as int;
        assert forall|i: int| 0 <= i < d.len() implies d[i] == e[i] by {}
        if e.last().0 <= h {
            assert forall|i: int| 0 <= i < d.len() implies d[i].0 <= h by {
                assert(e[i].0 <= e[e.len() - 1].0);
            }
            if c < d.len() {
                assert(d[c].0 > h);
            }
            assert(count_upto(e, h) == e.len());
        } else {
            assert(count_upto(e, h) == c);
            assert forall|i: int| c <= i < e.len() implies e[i].0 > h by {
                if i < d.len() {
                    assert(d[i].0 > h);
                }
            }
        }
    }
}

proof fn lemma_count_node_concat<T>(a: Seq<(u64, T, usize)>, b: Seq<(u64, T, usize)>, n: T)
    ensures
        count_node(a + b, n) == count_node(a, n) + count_node(b, n),
    decreases b.len(),
{
    if b.len() == 0 {
        assert(a + b =~= a);
    } else {
        assert((a + b).drop_last() =~= a + b.drop_last());
        lemma_count_node_concat(a, b.drop_last(), n);
    }
}

proof fn lemma_count_node_insert<T>(e: Seq<(u64, T, usize)>, i: int, x: (u64, T, usize), n: T)
    requires
        0 <= i <= e.len(),
    ensures
        count_node(e.insert(i, x), n) == count_node(e, n) + if x.1 == n {
            1nat
        } else {
            0nat
        },
{
    let a = e.take(i);
    let b = e.skip(i);
    assert(e.insert(i, x) =~= a + seq![x] + b);
    assert(e =~= a + b);
    assert(seq![x].drop_last() =~= Seq::<(u64, T, usize)>::empty());
    assert(count_node(Seq::<(u64, T, usize)>::empty(), n) == 0);
    assert(count_node(seq![x], n) == if x.1 == n {
        1nat
    } else {
        0nat
    });
    lemma_count_node_concat(a + seq![x], b, n);
    lemma_count_node_concat(a, seq![x], n);
    lemma_count_node_concat(a, b, n);
}

proof fn lemma_insert_sorted<T>(e: Seq<(u64, T, usize)>, x: (u64, T, usize))
    requires
        sorted_by_position(e),
    ensures
        sorted_by_position(insert_sorted(e, x)),
        insert_sorted(e, x).len() == e.len() + 1,
        forall|n: T|
            count_node(#[trigger] insert_sorted(e, x), n) == count_node(e, n) + if x.1 == n {
                1nat
            } else {
                0nat
            },
{
    let u = count_upto(e, x.0) as int;
    lemma_count_upto_split_rev(e, x.0);
    let f = insert_sorted(e, x);
    assert forall|i: int, j: int| 0 <= i <= j < f.len() implies f[i].0 <= f[j].0 by {
        if j < u {
            assert(e[i].0 <= e[j].0);
        } else if i > u {
            assert(e[i - 1].0 <= e[j - 1].0);
        } else if i < u && j > u {
            assert(e[i].0 <= e[j - 1].0);
        }
    }
    assert forall|n: T|
        count_node(#[trigger] insert_sorted(e, x), n) == count_node(e, n) + if x.1 == n {
            1nat
        } else {
            0nat
        } by {
        lemma_count_node_insert(e, u, x, n);
    }
}

impl<T, S> HashRing<T, S> {
    /// The index of the first placement at or after position `h`
    /// (the number of placements if there is none).
    fn lower_bound(&self, h: u64) -> (r: usize)
        requires
            sorted_by_position(self@.entries),
        ensures
            r == count_below(self@.entries, h),
            r <= self@.entries.len(),
    {
        let ghost e = self@.entries;
        let mut lo: usize = 0;
        let mut hi: usize = self.ring.len();
        while lo < hi
            invariant
                e == self@.entries,
                sorted_by_position(e),
                0 <= lo <= hi <= e.len(),
                forall|i: int| 0 <= i < lo ==> e[i].0 < h,
                forall|i: int| hi <= i < e.len() ==> e[i].0 >= h,
            decreases hi - lo,
        {
            let mid = lo + (hi - lo) / 2;
            if self.ring[mid].key < h {
                assert forall|i: int| 0 <= i < mid + 1 implies e[i].0 < h by {
                    assert(e[i].0 <= e[mid as int].0);
                }
                lo = mid + 1;
            } else {
                assert forall|i: int| mid <= i < e.len() implies e[i].0 >= h by {
                    assert(e[mid as int].0 <= e[i].0);
                }
                hi = mid;
            }
        }
        proof {
            lemma_count_below_split(e, h, lo as int);
        }
        lo
    }

    /// The index after the last placement at or before position `h`.
    fn upper_bound(&self, h: u64) -> (r: usize)
        requires
            sorted_by_position(self@.entries),
        ensures
            r == count_upto(self@.entries, h),
            r <= self@.entries.len(),
    {
        let ghost e = self@.entries;
        let mut lo: usize = 0;
        let mut hi: usize = self.ring.len();
        while lo < hi
            invariant
                e == self@.entries,
                sorted_by_position(e),
                0 <= lo <= hi <= e.len(),
                forall|i: int| 0 <= i < lo ==> e[i].0 <= h,
                forall|i: int| hi <= i < e.len() ==> e[i].0 > h,
            decreases hi - lo,
        {
            let mid = lo + (hi - lo) / 2;
            if self.ring[mid].key <= h {
                assert forall|i: int| 0 <= i < mid + 1 implies e[i].0 <= h by {
                    assert(e[i].0 <= e[mid as int].0);
                }
                lo = mid + 1;
            } else {
                assert forall|i: int| mid <= i < e.len() implies e[i].0 > h by {
                    assert(e[mid as int].0 <= e[i].0);
                }
                hi = mid;
            }
        }
        proof {
            lemma_count_upto_split(e, h, lo as int);
        }
        lo
    }

    /// The number of distinct owners of each key.
    pub(crate) fn owner_limit(&self) -> (r: usize)
        requires
            self@.wf(),
        ensures
            r == self@.owner_limit(),
    {
        let count = self.len();
        if self.replicas < count {
            self.replicas + 1
        } else {
            count
        }
    }

    /// Walks the ring forward from placement `start`, collecting distinct
    /// nodes until `limit` are found or the ring has been gone round.
    pub(crate) fn owners_from_index(&self, start: usize, limit: usize) -> (r: Vec<T>) where
        T: PartialEq + Clone,
        requires
            self@.wf(),
            node_laws::<T>(),
            start <= self@.entries.len(),
        ensures
            r@ == owners_from(self@.entries, start as int, limit as nat),
    {
        let ghost e = self@.entries;
        let ghost s = rotate(e, start as int).map_values(|x: (u64, T, usize)| x.1);
        let len = self.ring.len();
        let mut out: Vec<T> = Vec::new();
        let mut i: usize = 0;
        assert(s.take(0) =~= Seq::<T>::empty());
        while i < len && out.len() < limit
            invariant
                e == self@.entries,
                self@.wf(),
                node_laws::<T>(),
                len == e.len(),
                start <= len,
                s == rotate(e, start as int).map_values(|x: (u64, T, usize)| x.1),
                i <= len,
                out@ == collect_distinct(s.take(i as int), limit as nat),
            decreases len - i,
        {
            let idx = if i < len - start {
                start + i
            } else {
                i - (len - start)
            };
            assert(s[i as int] == e[idx as int].1);
            let node = &self.ring[idx].node;
            proof {
                lemma_collect_step(s, i as int, limit as nat);
            }
            if !contains_node(out.as_slice(), node) {
                out.push(clone_node(node));
            }
            i = i + 1;
        }
        proof {
            if i == len {
                assert(s.take(len as int) =~= s);
            } else {
                lemma_collect_full(s, i as int, limit as nat);
            }
        }
        out
    }

    /// The nodes responsible for a key whose hash is `hash`: the primary and
    /// then the replicas, in ring order. Empty when the ring is empty.
    pub fn get_by_hash(&self, hash: u64) -> (r: Vec<T>) where T: PartialEq + Clone,
        requires
            self@.wf(),
            node_laws::<T>(),
        ensures
            r@ == self@.owners_at(hash),
    {
        if self.ring.len() == 0 {
            return Vec::new();
        }
        let limit = self.owner_limit();
        let n = self.lower_bound(hash);
        self.owners_from_index(n, limit)
    }
}

impl<T, S> HashRing<T, S> where T: Hash + Clone + Debug, S: BuildHasher {
    /// Relies on `BuildHasher::hash_one` of the ring's hash builder: the
    /// position of `input` on the ring. With the default builder this is
    /// SipHash-2-4 with zero keys; nothing about the value is stated here.
    #[verifier::external_body]
    pub fn get_hash<U>(&self, input: U) -> u64 where U: Hash {
        self.hash_builder.hash_one(input)
    }

    /// Returns all nodes responsible for `key`, primary first: those that
    /// `get_by_hash` gives for the key's position. Empty when the ring is
    /// empty.
    pub fn get<U: Hash>(&self, key: &U) -> (r: Vec<T>) where T: PartialEq,
        requires
            self@.wf(),
            node_laws::<T>(),
        ensures
            exists|h: u64| r@ == self@.owners_at(h),
    {
        let hash = self.get_hash(key);
        self.get_by_hash(hash)
    }

    /// Places the `vnodes` virtual nodes of `node`, each at the position that
    /// the hash builder gives for the node and its virtual index.
    fn add_virtual_nodes(&mut self, node: T) where T: PartialEq
        requires
            sorted_by_position(old(self)@.entries),
            node_laws::<T>(),
            old(self)@.entries.len() + old(self)@.vnodes <= usize::MAX,
        ensures
            sorted_by_position(final(self)@.entries),
            final(self)@.replicas == old(self)@.replicas,
            final(self)@.vnodes == old(self)@.vnodes,
            final(self)@.entries.len() == old(self)@.entries.len() + old(self)@.vnodes,
            exists|pos: Seq<u64>|
                pos.len() == old(self)@.vnodes && final(self)@.entries == insert_all(
                    old(self)@.entries,
                    placements(node, pos),
                ),
            forall|n: T|
                #[trigger] count_node(final(self)@.entries, n) == count_node(old(self)@.entries, n)
                    + if n == node {
                    old(self)@.vnodes
                } else {
                    0
                },
    {
        let ghost e0 = self@.entries;
        let ghost mut pos: Seq<u64> = Seq::empty();
        let mut id: usize = 0;
        assert(placements(node, pos) =~= Seq::<(u64, T, usize)>::empty());
        while id < self.vnodes
            invariant
                node_laws::<T>(),
                sorted_by_position(self@.entries),
                self@.replicas == old(self)@.replicas,
                self@.vnodes == old(self)@.vnodes,
                e0 == old(self)@.entries,
                e0.len() + self@.vnodes <= usize::MAX,
                id <= self@.vnodes,
                pos.len() == id,
                self@.entries.len() == e0.len() + id,
                self@.entries == insert_all(e0, placements(node, pos)),
                forall|n: T|
                    #[trigger] count_node(self@.entries, n) == count_node(e0, n) + if n == node {
                        id as nat
                    } else {
                        0
                    },
            decreases self@.vnodes - id,
        {
            let key = self.get_hash((&node, id));
            let at = self.upper_bound(key);
            let ghost before = self@.entries;
            let ghost x = (key, node, id);
            self.ring.insert(at, Node::new(key, clone_node(&node), id));
            proof {
                lemma_insert_sorted(before, x);
                assert(self@.entries =~= insert_sorted(before, x));
                let p2 = pos.push(key);
                assert(placements(node, p2).drop_last() =~= placements(node, pos));
                assert(placements(node, p2).last() == x);
                pos = p2;
            }
            id = id + 1;
        }
    }

    /// Adds `node` to the ring, at `vnodes` positions.
    pub fn add(&mut self, node: T) where T: PartialEq
        requires
            old(self)@.wf(),
            node_laws::<T>(),
            old(self)@.entries.len() + old(self)@.vnodes <= usize::MAX,
        ensures
            final(self)@.wf(),
            final(self)@.replicas == old(self)@.replicas,
            final(self)@.vnodes == old(self)@.vnodes,
            final(self)@.entries.len() == old(self)@.entries.len() + old(self)@.vnodes,
            exists|pos: Seq<u64>|
                pos.len() == old(self)@.vnodes && final(self)@.entries == insert_all(
                    old(self)@.entries,
                    placements(node, pos),
                ),
    {
        let ghost e0 = self@.entries;
        self.add_virtual_nodes(node);
        proof {
            let v = self@.vnodes as int;
            assert forall|n: T| #[trigger] count_node(self@.entries, n) % self@.vnodes == 0 by {
                assert(count_node(e0, n) % self@.vnodes == 0);
                if n == node {
                    vstd::arithmetic::div_mod::lemma_mod_add_multiples_vanish(
                        count_node(e0, n) as int,
                        v,
                    );
                }
            }
        }
    }

    /// Adds each of `nodes` in turn, as `add` does.
    pub fn batch_add(&mut self, nodes: Vec<T>) where T: PartialEq
        requires
            old(self)@.wf(),
            node_laws::<T>(),
            old(self)@.entries.len() + nodes@.len() * old(self)@.vnodes <= usize::MAX,
        ensures
            final(self)@.wf(),
            final(self)@.replicas == old(self)@.replicas,
            final(self)@.vnodes == old(self)@.vnodes,
            exists|pos: Seq<Seq<u64>>|
                pos.len() == nodes@.len() && (forall|k: int|
                    0 <= k < pos.len() ==> (#[trigger] pos[k]).len() == old(self)@.vnodes)
                    && final(self)@.entries == insert_nodes(old(self)@.entries, nodes@, pos),
    {
        let ghost e0 = self@.entries;
        let ghost mut pos: Seq<Seq<u64>> = Seq::empty();
        let mut k: usize = 0;
        while k < nodes.len()
            invariant
                node_laws::<T>(),
                self@.wf(),
                self@.replicas == old(self)@.replicas,
                self@.vnodes == old(self)@.vnodes,
                e0 == old(self)@.entries,
                e0.len() + nodes@.len() * self@.vnodes <= usize::MAX,
                k <= nodes@.len(),
                self@.entries.len() == e0.len() + k * self@.vnodes,
                pos.len() == k,
                forall|j: int| 0 <= j < pos.len() ==> (#[trigger] pos[j]).len() == self@.vnodes,
                self@.entries == insert_nodes(e0, nodes@.take(k as int), pos),
            decreases nodes@.len() - k,
        {
            let ghost before = self@.entries;
            proof {
                let v = self@.vnodes as int;
                assert((k + 1) * v <= nodes@.len() * v) by (nonlinear_arith)
                    requires
                        k + 1 <= nodes@.len(),
                        v >= 0,
                ;
                assert((k + 1) * v == k * v + v) by (nonlinear_arith);
            }
            self.add(clone_node(&nodes[k]));
            proof {
                let p = choose|p: Seq<u64>|
                    p.len() == self@.vnodes && self@.entries == insert_all(
                        before,
                        placements(nodes@[k as int], p),
                    );
                let v = self@.vnodes as int;
                assert((k + 1) * v == k * v + v) by (nonlinear_arith);
                let pos2 = pos.push(p);
                assert(nodes@.take(k + 1).drop_last() =~= nodes@.take(k as int));
                assert(pos2.drop_last() =~= pos);
                pos = pos2;
            }
            k = k + 1;
        }
        assert(nodes@.take(nodes@.len() as int) =~= nodes@);
    }

    /// Removes every virtual node of `node`; nothing changes if it is not in
    /// the ring.
    pub fn remove(&mut self, node: &T) where T: PartialEq
        requires
            old(self)@.wf(),
            node_laws::<T>(),
        ensures
            final(self)@.wf(),
            final(self)@.replicas == old(self)@.replicas,
            final(self)@.vnodes == old(self)@.vnodes,
            final(self)@.entries == old(self)@.entries.filter(|x: (u64, T, usize)| x.1 != *node),
    {
        let ghost e = self@.entries;
        let ghost keep = |x: (u64, T, usize)| x.1 != *node;
        let mut kept: Vec<Node<T>> = Vec::new();
        let mut i: usize = 0;
        proof {
            reveal(Seq::filter);
            assert(e.take(0) =~= Seq::<(u64, T, usize)>::empty());
        }
        while i < self.ring.len()
            invariant
                node_laws::<T>(),
                e == self@.entries,
                self@.wf(),
                i <= e.len(),
                keep == (|x: (u64, T, usize)| x.1 != *node),
                entries_of(kept@) == e.take(i as int).filter(keep),
                sorted_by_position(entries_of(kept@)),
                kept@.len() > 0 ==> forall|j: int|
                    i <= j < e.len() ==> kept@.last().key <= #[trigger] e[j].0,
                forall|n: T|
                    #[trigger] count_node(entries_of(kept@), n) == if n
                        == *node {
                        0
                    } else {
                        count_node(e.take(i as int), n)
                    },
            decreases e.len() - i,
        {
            let ghost kv = entries_of(kept@);
            proof {
                reveal(Seq::filter);
                assert(e.take(i + 1).drop_last() =~= e.take(i as int));
            }
            if !same_node(&self.ring[i].node, node) {
                let entry = Node::new(
                    self.ring[i].key,
                    clone_node(&self.ring[i].node),
                    self.ring[i].virtual_id,
                );
                kept.push(entry);
                proof {
                    let kv2 = entries_of(kept@);
                    assert(kv2 =~= kv.push(e[i as int]));
                    assert(kv2.drop_last() =~= kv);
                    assert(kept@.last().key == e[i as int].0);
                    assert forall|n: T| #[trigger]
                        count_node(entries_of(kept@), n) == if n == *node {
                            0
                        } else {
                            count_node(e.take(i + 1), n)
                        } by {
                        assert(count_node(kv2, n) == count_node(kv, n) + if e[i as int].1 == n {
                            1nat
                        } else {
                            0nat
                        });
                    }
                    assert forall|a: int, b: int| 0 <= a <= b < kv2.len() implies kv2[a].0
                        <= kv2[b].0 by {
                        if b == kv2.len() - 1 && a < b {
                            assert(kv[a].0 <= kv[kv.len() - 1].0);
                        }
                    }
                    assert forall|j: int| i + 1 <= j < e.len() implies kept@.last().key
                        <= #[trigger] e[j].0 by {
                        assert(e[i as int].0 <= e[j].0);
                    }
                }
            } else {
                proof {
                    assert forall|n: T| #[trigger]
                        count_node(entries_of(kept@), n) == if n == *node {
                            0
                        } else {
                            count_node(e.take(i + 1), n)
                        } by {
                        assert(count_node(e.take(i + 1), n) == count_node(e.take(i as int), n)
                            + if e[i as int].1 == n {
                            1nat
                        } else {
                            0nat
                        });
                    }
                    if kept@.len() > 0 {
                        assert forall|j: int| i + 1 <= j < e.len() implies kept@.last().key
                            <= #[trigger] e[j].0 by {
                            assert(kept@.last().key <= e[j].0);
                        }
                    }
                }
            }
            i = i + 1;
        }
        let ghost kv = entries_of(kept@);
        proof {
            assert(e.take(e.len() as int) =~= e);
        }
        self.ring = kept;
        proof {
            assert(self@.entries == kv);
            assert forall|n: T| #[trigger] count_node(self@.entries, n) % self@.vnodes == 0 by {
                assert(count_node(kv, n) == if n == *node {
                    0
                } else {
                    count_node(e, n)
                });
                assert(count_node(e, n) % self@.vnodes == 0);
            }
        }
    }
}

} // verus!
