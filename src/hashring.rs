use siphasher::sip::SipHasher;
use std::hash::BuildHasher;
use vstd::prelude::*;
use vstd::std_specs::cmp::PartialEqSpec;

pub mod coordinator;
pub mod crud;
pub mod iterator;
pub mod laws;

verus! {

#[verifier::external_type_specification]
#[verifier::external_body]
pub struct ExSipHasher(SipHasher);

/// Relies on `siphasher::sip::SipHasher::new`: a SipHash-2-4 hasher keyed with
/// two zero keys. Nothing is stated of the hasher's state.
pub assume_specification[ SipHasher::new ]() -> SipHasher;

/// The hash builder that a ring uses unless it is given another one: every
/// hasher it builds is SipHash-2-4 with zero keys, so positions on the ring do
/// not change from one process to the next.
#[derive(Clone, PartialEq, Debug)]
pub struct DefaultHashBuilder;

impl BuildHasher for DefaultHashBuilder {
    type Hasher = SipHasher;

    fn build_hasher(&self) -> SipHasher {
        SipHasher::new()
    }
}

/// What the ring asks of a node type: `==` is equality of values, and a clone
/// equals what it was cloned from.
pub open spec fn node_laws<T: PartialEq + Clone>() -> bool {
    &&& T::obeys_eq_spec()
    &&& forall|a: T, b: T| a.eq_spec(&b) <==> a == b
    &&& forall|a: T, b: T| call_ensures(T::clone, (&a,), b) ==> a == b
}

pub(crate) fn clone_node<T: PartialEq + Clone>(x: &T) -> (r: T)
    requires
        node_laws::<T>(),
    ensures
        r == *x,
{
    x.clone()
}

pub(crate) fn same_node<T: PartialEq + Clone>(a: &T, b: &T) -> (r: bool)
    requires
        node_laws::<T>(),
    ensures
        r == (*a == *b),
{
    a.eq(b)
}

/// Whether `x` is among `v`.
pub(crate) fn contains_node<T: PartialEq + Clone>(v: &[T], x: &T) -> (r: bool)
    requires
        node_laws::<T>(),
    ensures
        r == v@.contains(*x),
{
    let mut i: usize = 0;
    while i < v.len()
        invariant
            node_laws::<T>(),
            i <= v@.len(),
            forall|j: int| 0 <= j < i ==> v@[j] != *x,
        decreases v@.len() - i,
    {
        if same_node(&v[i], x) {
            return true;
        }
        i = i + 1;
    }
    false
}

/// A copy of a list of nodes.
pub(crate) fn clone_nodes<T: PartialEq + Clone>(v: &Vec<T>) -> (r: Vec<T>)
    requires
        node_laws::<T>(),
    ensures
        r@ == v@,
{
    let mut r: Vec<T> = Vec::new();
    let mut i: usize = 0;
    while i < v.len()
        invariant
            node_laws::<T>(),
            i <= v@.len(),
            r@ == v@.take(i as int),
        decreases v@.len() - i,
    {
        r.push(clone_node(&v[i]));
        i = i + 1;
        assert(r@ =~= v@.take(i as int));
    }
    assert(v@.take(v@.len() as int) =~= v@);
    r
}

/// Whether two lists hold the same nodes in the same order.
pub(crate) fn same_nodes<T: PartialEq + Clone>(a: &Vec<T>, b: &Vec<T>) -> (r: bool)
    requires
        node_laws::<T>(),
    ensures
        r == (a@ == b@),
{
    if a.len() != b.len() {
        return false;
    }
    let mut i: usize = 0;
    while i < a.len()
        invariant
            node_laws::<T>(),
            a@.len() == b@.len(),
            i <= a@.len(),
            forall|j: int| 0 <= j < i ==> a@[j] == b@[j],
        decreases a@.len() - i,
    {
        if !same_node(&a[i], &b[i]) {
            return false;
        }
        i = i + 1;
    }
    assert(a@ =~= b@);
    true
}

/// One virtual placement of a real node: its position on the ring, the node,
/// and the index of this placement among the node's virtual nodes.
#[derive(Clone, Debug)]
pub struct Node<T> {
    pub key: u64,
    pub node: T,
    pub virtual_id: usize,
}

impl<T> Node<T> {
    pub fn new(key: u64, node: T, virtual_id: usize) -> (r: Node<T>)
        ensures
            r.key == key,
            r.node == node,
            r.virtual_id == virtual_id,
    {
        Node { key, node, virtual_id }
    }

    pub open spec fn entry(self) -> (u64, T, usize) {
        (self.key, self.node, self.virtual_id)
    }
}

/// Two placements compare equal when they sit at the same position.
impl<T> PartialEq for Node<T> {
    fn eq(&self, other: &Node<T>) -> (r: bool) {
        self.key == other.key
    }
}

impl<T> vstd::std_specs::cmp::PartialEqSpecImpl for Node<T> {
    open spec fn obeys_eq_spec() -> bool {
        true
    }

    open spec fn eq_spec(&self, other: &Node<T>) -> bool {
        self.key == other.key
    }
}

/// A set of nodes (a cluster) placed on a circular 64-bit hash space by
/// consistent hashing, each real node at `vnodes` positions. Each key is held
/// by the first `replicas + 1` distinct nodes found walking forward from the
/// key's position.
#[derive(Clone, PartialEq, Debug)]
pub struct HashRing<T, S = DefaultHashBuilder> {
    hash_builder: S,
    ring: Vec<Node<T>>,
    replicas: usize,
    vnodes: usize,
}

/// What a ring is, mathematically: its placements `(position, node, virtual
/// index)` in ring order, the number of replicas beyond the primary, and the
/// number of virtual nodes per real node.
pub struct RingView<T> {
    pub entries: Seq<(u64, T, usize)>,
    pub replicas: nat,
    pub vnodes: nat,
}

impl<T, S> View for HashRing<T, S> {
    type V = RingView<T>;

    closed spec fn view(&self) -> RingView<T> {
        RingView {
            entries: entries_of(self.ring@),
            replicas: self.replicas as nat,
            vnodes: self.vnodes as nat,
        }
    }
}

/// The placements held in a list of virtual nodes.
pub open spec fn entries_of<T>(v: Seq<Node<T>>) -> Seq<(u64, T, usize)> {
    v.map_values(|n: Node<T>| n.entry())
}

/// The placements are in ascending order of position.
pub open spec fn sorted_by_position<T>(e: Seq<(u64, T, usize)>) -> bool {
    forall|i: int, j: int| 0 <= i <= j < e.len() ==> e[i].0 <= e[j].0
}

/// How many placements belong to `n`.
pub open spec fn count_node<T>(e: Seq<(u64, T, usize)>, n: T) -> nat
    decreases e.len(),
{
    if e.len() == 0 {
        0
    } else {
        count_node(e.drop_last(), n) + if e.last().1 == n {
            1nat
        } else {
            0nat
        }
    }
}

impl<T> RingView<T> {
    /// The number of real nodes: placements divided by placements per node.
    pub open spec fn real_count(self) -> nat {
        if self.vnodes == 0 {
            0
        } else {
            self.entries.len() / self.vnodes
        }
    }

    /// How many distinct nodes own each key: the primary and the replicas,
    /// but never more than there are real nodes.
    pub open spec fn owner_limit(self) -> nat {
        if self.replicas + 1 <= self.real_count() {
            self.replicas + 1
        } else {
            self.real_count()
        }
    }

    /// Well-formedness: placements sorted by position, at least one virtual
    /// node per real node, and every node placed a whole number of times
    /// `vnodes`.
    pub open spec fn wf(self) -> bool {
        &&& self.vnodes >= 1
        &&& sorted_by_position(self.entries)
        &&& forall|n: T| #[trigger] count_node(self.entries, n) % self.vnodes == 0
        &&& self.entries.len() <= usize::MAX
    }
}

/// An empty ring with at least one virtual node per real node is well formed.
pub proof fn lemma_empty_wf<T>(v: RingView<T>)
    requires
        v.vnodes >= 1,
        v.entries.len() == 0,
    ensures
        v.wf(),
{
    assert forall|n: T| #[trigger] count_node(v.entries, n) % v.vnodes == 0 by {
        assert(count_node(v.entries, n) == 0);
    }
}

impl<T> Default for HashRing<T> {
    /// An empty ring with the default hash builder, two replicas beyond the
    /// primary, and 200 virtual nodes per real node.
    fn default() -> (r: HashRing<T>)
        ensures
            r@.wf(),
            r@.entries.len() == 0,
            r@.replicas == 2,
            r@.vnodes == 200,
    {
        let r = HashRing {
            hash_builder: DefaultHashBuilder,
            ring: Vec::new(),
            replicas: 2,
            vnodes: 200,
        };
        proof {
            lemma_empty_wf(r@);
        }
        r
    }
}

impl<T> HashRing<T> {
    /// Creates an empty ring with the default hash builder. `replicas` is the
    /// number of extra copies of each key (0 stores each key once); `vnodes`
    /// is the number of virtual nodes per real node, at least 1.
    pub fn new(replicas: usize, vnodes: usize) -> (r: HashRing<T>)
        ensures
            r@.wf(),
            r@.entries.len() == 0,
            r@.replicas == replicas,
            r@.vnodes == if vnodes == 0 {
                1
            } else {
                vnodes
            },
    {
        let r = HashRing {
            hash_builder: DefaultHashBuilder,
            ring: Vec::new(),
            replicas,
            vnodes: if vnodes == 0 {
                1
            } else {
                vnodes
            },
        };
        proof {
            lemma_empty_wf(r@);
        }
        r
    }
}

impl<T, S> HashRing<T, S> {
    /// The number of real nodes in the ring.
    pub fn len(&self) -> (r: usize)
        requires
            self@.wf(),
        ensures
            r == self@.real_count(),
    {
        self.ring.len() / self.vnodes
    }

    /// The number of virtual nodes in the ring.
    pub fn vlen(&self) -> (r: usize)
        ensures
            r == self@.entries.len(),
    {
        self.ring.len()
    }

    /// Whether the ring holds no node.
    pub fn is_empty(&self) -> (r: bool)
        ensures
            r == (self@.entries.len() == 0),
    {
        self.ring.len() == 0
    }

    /// Creates an empty ring that hashes with `hash_builder`. A `vnodes` of 0
    /// is taken as 1, as in `new`.
    pub fn with_hasher(replicas: usize, vnodes: usize, hash_builder: S) -> (r: HashRing<T, S>)
        ensures
            r@.wf(),
            r@.entries.len() == 0,
            r@.replicas == replicas,
            r@.vnodes == if vnodes == 0 {
                1
            } else {
                vnodes
            },
    {
        let r = HashRing {
            hash_builder,
            ring: Vec::new(),
            replicas,
            vnodes: if vnodes == 0 {
                1
            } else {
                vnodes
            },
        };
        proof {
            lemma_empty_wf(r@);
        }
        r
    }
}

} // verus!
