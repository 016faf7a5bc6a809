use vstd::prelude::*;

use super::{HashRing, Node};

verus! {

/// Hands out the nodes of a ring's placements, one per virtual node, in ring
/// order.
pub struct HashRingIterator<T> {
    /// The nodes still to come, last first.
    rest: Vec<T>,
}

impl<T> View for HashRingIterator<T> {
    type V = Seq<T>;

    /// The nodes still to come, in order.
    closed spec fn view(&self) -> Seq<T> {
        self.rest@.reverse()
    }
}

impl<T> HashRingIterator<T> {
    /// The next node, or `None` once all have been handed out.
    pub fn next(&mut self) -> (r: Option<T>)
        ensures
            old(self)@.len() == 0 ==> r.is_none() && final(self)@ == old(self)@,
            old(self)@.len() > 0 ==> r == Some(old(self)@[0]) && final(self)@ == old(
                self,
            )@.drop_first(),
    {
        let ghost before = self.rest@;
        let r = self.rest.pop();
        proof {
            if before.len() > 0 {
                assert(self.rest@.reverse() =~= before.reverse().drop_first());
            }
        }
        r
    }
}

impl<T, S> HashRing<T, S> {
    /// Consumes the ring into an iterator over the node of each placement, in
    /// ring order.
    pub fn into_iter(self) -> (r: HashRingIterator<T>)
        ensures
            r@ == self@.entries.map_values(|x: (u64, T, usize)| x.1),
    {
        let ghost s = self@.entries.map_values(|x: (u64, T, usize)| x.1);
        let mut ring: Vec<Node<T>> = self.ring;
        let mut rest: Vec<T> = Vec::new();
        while ring.len() > 0
            invariant
                s.len() == rest@.len() + ring@.len(),
                forall|i: int| 0 <= i < ring@.len() ==> s[i] == ring@[i].node,
                forall|i: int| 0 <= i < rest@.len() ==> rest@[i] == s[s.len() - 1 - i],
            decreases ring@.len(),
        {
            match ring.pop() {
                Some(n) => rest.push(n.node),
                None => {},
            }
        }
        let r = HashRingIterator { rest };
        assert(r@ =~= s);
        r
    }
}

} // verus!
