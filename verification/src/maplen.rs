//! A small map from replica identity to a prefix length, used by a leader
//! for its per-peer `sent_length` and `acked_length` bookkeeping.

use vstd::prelude::*;

use crate::types::{NodeId, RaftError};

verus! {

/// A map `NodeId -> u64`, stored as a vector of pairs with unique keys.
#[derive(Debug)]
pub struct MapLength {
    pub pairs: Vec<(NodeId, u64)>,
}

impl View for MapLength {
    type V = Map<NodeId, u64>;

    open spec fn view(&self) -> Map<NodeId, u64> {
        view_of(self.pairs@)
    }
}

/// The first position holding key `k`, if any.
pub open spec fn index_of_key(pairs: Seq<(NodeId, u64)>, k: NodeId) -> int {
    choose|i: int| 0 <= i < pairs.len() && pairs[i].0 == k
}

/// Keys occur at most once.
pub open spec fn unique_keys(pairs: Seq<(NodeId, u64)>) -> bool {
    forall|i: int, j: int|
        0 <= i < j < pairs.len() ==> pairs[i].0 != pairs[j].0
}

impl MapLength {
    pub open spec fn wf(&self) -> bool {
        unique_keys(self.pairs@)
    }

    proof fn lemma_at(&self, i: int)
        requires
            self.wf(),
            0 <= i < self.pairs@.len(),
        ensures
            self@.dom().contains(self.pairs@[i].0),
            self@[self.pairs@[i].0] == self.pairs@[i].1,
    {
        let k = self.pairs@[i].0;
        assert(exists|j: int| 0 <= j < self.pairs@.len() && self.pairs@[j].0 == k);
        let j = index_of_key(self.pairs@, k);
        assert(j == i);
    }

    /// An empty map.
    pub fn new() -> (r: Self)
        ensures
            r.wf(),
            r@ =~= Map::<NodeId, u64>::empty(),
    {
        let r = MapLength { pairs: Vec::new() };
        proof {
            assert forall|k: NodeId| !r@.dom().contains(k) by {}
        }
        r
    }

    /// The length recorded for `node`; `Err(Logic)` exactly when the node
    /// is unknown.
    pub fn get(&self, node: &NodeId) -> (r: Result<u64, RaftError>)
        requires
            self.wf(),
        ensures
            self@.dom().contains(*node) ==> (r matches Ok(v) && v == self@[*node]),
            !self@.dom().contains(*node) ==> (r matches Err(e) && e == RaftError::Logic),
    {
        let mut i: usize = 0;
        while i < self.pairs.len()
            invariant
                self.wf(),
                i <= self.pairs.len(),
                forall|j: int| 0 <= j < i ==> self.pairs@[j].0 != *node,
            decreases self.pairs.len() - i,
        {
            if self.pairs[i].0 == *node {
                proof {
                    self.lemma_at(i as int);
                }
                return Ok(self.pairs[i].1);
            }
            i = i + 1;
        }
        proof {
            assert forall|j: int| 0 <= j < self.pairs@.len() implies self.pairs@[j].0 != *node by {}
        }
        Err(RaftError::Logic)
    }

    /// Inserts or overwrites the length recorded for `node`.
    pub fn insert(&mut self, node: &NodeId, length: u64)
        requires
            old(self).wf(),
        ensures
            final(self).wf(),
            final(self)@ =~= old(self)@.insert(*node, length),
    {
        let ghost pairs0 = self.pairs@;
        let mut i: usize = 0;
        while i < self.pairs.len()
            invariant
                pairs0 == old(self).pairs@,
                self.pairs@ == pairs0,
                unique_keys(pairs0),
                i <= pairs0.len(),
                forall|j: int| 0 <= j < i ==> pairs0[j].0 != *node,
            decreases self.pairs.len() - i,
        {
            if self.pairs[i].0 == *node {
                self.pairs[i] = (*node, length);
                proof {
                    lemma_update_is_insert(pairs0, self.pairs@, i as int, *node, length);
                }
                return;
            }
            i = i + 1;
        }
        self.pairs.push((*node, length));
        proof {
            lemma_push_is_insert(pairs0, self.pairs@, *node, length);
        }
    }
}

proof fn lemma_update_is_insert(
    pairs0: Seq<(NodeId, u64)>,
    pairs1: Seq<(NodeId, u64)>,
    i: int,
    k: NodeId,
    v: u64,
)
    requires
        unique_keys(pairs0),
        0 <= i < pairs0.len(),
        pairs0[i].0 == k,
        pairs1 == pairs0.update(i, (k, v)),
    ensures
        unique_keys(pairs1),
        view_of(pairs1) == view_of(pairs0).insert(k, v),
{
    assert forall|a: int, b: int| 0 <= a < b < pairs1.len() implies pairs1[a].0 != pairs1[b].0 by {
        assert(pairs1[a].0 == if a == i { k } else { pairs0[a].0 });
        assert(pairs1[b].0 == if b == i { k } else { pairs0[b].0 });
    }
    assert forall|q: NodeId| view_of(pairs1).dom().contains(q) <==> view_of(pairs0).insert(
        k,
        v,
    ).dom().contains(q) by {
        if exists|a: int| 0 <= a < pairs1.len() && pairs1[a].0 == q {
            let a = choose|a: int| 0 <= a < pairs1.len() && pairs1[a].0 == q;
            if a == i {
            } else {
                assert(pairs0[a].0 == q);
            }
        }
        if exists|a: int| 0 <= a < pairs0.len() && pairs0[a].0 == q {
            let a = choose|a: int| 0 <= a < pairs0.len() && pairs0[a].0 == q;
            if a == i {
                assert(pairs1[i].0 == k);
            } else {
                assert(pairs1[a].0 == q);
            }
        }
        assert(pairs1[i].0 == k);
    }
    assert forall|q: NodeId| view_of(pairs1).dom().contains(q) implies view_of(pairs1)[q]
        == view_of(pairs0).insert(k, v)[q] by {
        let a = choose|a: int| 0 <= a < pairs1.len() && pairs1[a].0 == q;
        if q == k {
            lemma_index_and_value(pairs1, k, i, v);
        } else {
            assert(a != i);
            assert(pairs0[a].0 == q);
            lemma_index_and_value(pairs1, q, a, pairs1[a].1);
            lemma_index_and_value(pairs0, q, a, pairs0[a].1);
        }
    }
    assert(view_of(pairs1) =~= view_of(pairs0).insert(k, v));
}

proof fn lemma_push_is_insert(
    pairs0: Seq<(NodeId, u64)>,
    pairs1: Seq<(NodeId, u64)>,
    k: NodeId,
    v: u64,
)
    requires
        unique_keys(pairs0),
        forall|j: int| 0 <= j < pairs0.len() ==> pairs0[j].0 != k,
        pairs1 == pairs0.push((k, v)),
    ensures
        unique_keys(pairs1),
        view_of(pairs1) == view_of(pairs0).insert(k, v),
{
    assert forall|a: int, b: int| 0 <= a < b < pairs1.len() implies pairs1[a].0 != pairs1[b].0 by {
        if b == pairs0.len() {
            assert(pairs1[a].0 == pairs0[a].0);
        }
    }
    assert forall|q: NodeId| view_of(pairs1).dom().contains(q) <==> view_of(pairs0).insert(
        k,
        v,
    ).dom().contains(q) by {
        if exists|a: int| 0 <= a < pairs1.len() && pairs1[a].0 == q {
            let a = choose|a: int| 0 <= a < pairs1.len() && pairs1[a].0 == q;
            if a < pairs0.len() {
                assert(pairs0[a].0 == q);
            }
        }
        if exists|a: int| 0 <= a < pairs0.len() && pairs0[a].0 == q {
            let a = choose|a: int| 0 <= a < pairs0.len() && pairs0[a].0 == q;
            assert(pairs1[a].0 == q);
        }
        assert(pairs1[pairs0.len() as int].0 == k);
    }
    assert forall|q: NodeId| view_of(pairs1).dom().contains(q) implies view_of(pairs1)[q]
        == view_of(pairs0).insert(k, v)[q] by {
        if q == k {
            lemma_index_and_value(pairs1, k, pairs0.len() as int, v);
        } else {
            let a = choose|a: int| 0 <= a < pairs1.len() && pairs1[a].0 == q;
            assert(a < pairs0.len());
            assert(pairs0[a].0 == q);
            lemma_index_and_value(pairs1, q, a, pairs1[a].1);
            lemma_index_and_value(pairs0, q, a, pairs0[a].1);
        }
    }
    assert(view_of(pairs1) =~= view_of(pairs0).insert(k, v));
}

/// The map a pair sequence denotes; mirrors `MapLength::view`.
pub open spec fn view_of(pairs: Seq<(NodeId, u64)>) -> Map<NodeId, u64> {
    Map::new(
        |k: NodeId| exists|i: int| 0 <= i < pairs.len() && pairs[i].0 == k,
        |k: NodeId| pairs[index_of_key(pairs, k)].1,
    )
}

proof fn lemma_index_and_value(pairs: Seq<(NodeId, u64)>, k: NodeId, i: int, v: u64)
    requires
        unique_keys(pairs),
        0 <= i < pairs.len(),
        pairs[i].0 == k,
        pairs[i].1 == v,
    ensures
        view_of(pairs)[k] == v,
{
    let j = index_of_key(pairs, k);
    assert(exists|a: int| 0 <= a < pairs.len() && pairs[a].0 == k);
    assert(0 <= j < pairs.len() && pairs[j].0 == k);
    assert(j == i);
}

} // verus!
