//! Buffers of the route search, kept in a pool and reused.

use vstd::prelude::*;

verus! {

/// Cost of a node that was not reached.
pub const UNREACHED: u64 = u64::MAX;

/// Predecessor of a node that has none.
pub const NO_NODE: u32 = u32::MAX;

/// Per-node state of the search. An entry counts only where the node's stamp in
/// `gen` is `current_gen`, so that a reset is one step and rewrites nothing: a
/// node has to go through [`AstarBuffers::touch`] before its entries are used.
pub struct AstarBuffers {
    pub g_score: Vec<u64>,
    pub came_from: Vec<u32>,
    pub closed: Vec<bool>,
    /// Estimate of the cost from the node to the goal, filled in by the caller
    /// on the first touch.
    pub h_score: Vec<u64>,
    pub gen: Vec<u32>,
    pub current_gen: u32,
}

impl AstarBuffers {
    /// There is one entry per node, and no stamp lies ahead of the current one.
    pub open spec fn wf(&self, num_nodes: nat) -> bool {
        &&& self.g_score@.len() == num_nodes
        &&& self.came_from@.len() == num_nodes
        &&& self.closed@.len() == num_nodes
        &&& self.h_score@.len() == num_nodes
        &&& self.gen@.len() == num_nodes
        &&& self.current_gen >= 1
        &&& forall|i: int| 0 <= i < num_nodes ==> #[trigger] self.gen@[i] <= self.current_gen
    }

    /// The node's entries count.
    pub open spec fn touched(&self, node: int) -> bool {
        self.gen@[node] == self.current_gen
    }

    /// Least cost found so far from the start to the node.
    pub open spec fn dist(&self, node: int) -> u64 {
        if self.touched(node) {
            self.g_score@[node]
        } else {
            UNREACHED
        }
    }

    /// The node before it on the way found.
    pub open spec fn came(&self, node: int) -> u32 {
        if self.touched(node) {
            self.came_from@[node]
        } else {
            NO_NODE
        }
    }

    /// The node was expanded.
    pub open spec fn is_closed(&self, node: int) -> bool {
        self.touched(node) && self.closed@[node]
    }

    /// No entry counts.
    pub open spec fn fresh(&self) -> bool {
        forall|i: int| 0 <= i < self.gen@.len() ==> !(#[trigger] self.touched(i))
    }

    /// Buffers for `num_nodes` nodes.
    pub fn new(num_nodes: usize) -> (r: Self)
        ensures
            r.wf(num_nodes as nat),
            r.fresh(),
            r.current_gen == 1,
            r.g_score@ == Seq::new(num_nodes as nat, |i: int| UNREACHED),
            r.came_from@ == Seq::new(num_nodes as nat, |i: int| NO_NODE),
            r.closed@ == Seq::new(num_nodes as nat, |i: int| false),
            r.h_score@ == Seq::new(num_nodes as nat, |i: int| 0u64),
            r.gen@ == Seq::new(num_nodes as nat, |i: int| 0u32),
    {
        let r = AstarBuffers {
            g_score: vec![UNREACHED; num_nodes],
            came_from: vec![NO_NODE; num_nodes],
            closed: vec![false; num_nodes],
            h_score: vec![0; num_nodes],
            gen: vec![0; num_nodes],
            current_gen: 1,
        };
        assert(r.g_score@ =~= Seq::new(num_nodes as nat, |i: int| UNREACHED));
        assert(r.came_from@ =~= Seq::new(num_nodes as nat, |i: int| NO_NODE));
        assert(r.closed@ =~= Seq::new(num_nodes as nat, |i: int| false));
        assert(r.h_score@ =~= Seq::new(num_nodes as nat, |i: int| 0u64));
        assert(r.gen@ =~= Seq::new(num_nodes as nat, |i: int| 0u32));
        r
    }

    /// Makes no entry count any more, by moving on to the next stamp. Only when
    /// the stamps run out are they all cleared.
    pub fn reset(&mut self)
        requires
            old(self).wf(old(self).gen@.len()),
        ensures
            final(self).wf(old(self).gen@.len()),
            final(self).fresh(),
            final(self).g_score == old(self).g_score,
            final(self).came_from == old(self).came_from,
            final(self).closed == old(self).closed,
            final(self).h_score == old(self).h_score,
            old(self).current_gen < u32::MAX ==> final(self).gen == old(self).gen
                && final(self).current_gen == old(self).current_gen + 1,
            old(self).current_gen == u32::MAX ==> final(self).current_gen == 1,
    {
        if self.current_gen == u32::MAX {
            let n: usize = self.gen.len();
            self.gen = vec![0; n];
            self.current_gen = 1;
        } else {
            self.current_gen = self.current_gen + 1;
        }
    }

    /// Makes the entries of `node` count. Says whether they did not before; then
    /// they are set to their defaults, but for `h_score`, which the caller fills.
    pub fn touch(&mut self, node: u32) -> (first: bool)
        requires
            old(self).wf(old(self).gen@.len()),
            node < old(self).gen@.len(),
        ensures
            final(self).wf(old(self).gen@.len()),
            first == !old(self).touched(node as int),
            final(self).current_gen == old(self).current_gen,
            final(self).h_score == old(self).h_score,
            final(self).gen@ == old(self).gen@.update(node as int, old(self).current_gen),
            !first ==> *final(self) == *old(self),
            first ==> {
                &&& final(self).g_score@ == old(self).g_score@.update(node as int, UNREACHED)
                &&& final(self).came_from@ == old(self).came_from@.update(node as int, NO_NODE)
                &&& final(self).closed@ == old(self).closed@.update(node as int, false)
            },
    {
        let idx: usize = node as usize;
        if self.gen[idx] != self.current_gen {
            let stamp: u32 = self.current_gen;
            self.gen.set(idx, stamp);
            self.g_score.set(idx, UNREACHED);
            self.came_from.set(idx, NO_NODE);
            self.closed.set(idx, false);
            true
        } else {
            assert(self.gen@ =~= self.gen@.update(node as int, self.current_gen));
            false
        }
    }
}

/// Buffers that a server keeps ready.
pub const DEFAULT_POOL_SIZE: usize = 2;

/// Pool of buffers of one size.
pub struct AstarPool {
    pub buffers: Vec<AstarBuffers>,
    pub num_nodes: usize,
}

impl AstarPool {
    /// Every buffer in the pool has the right size and is fresh.
    pub open spec fn wf(&self) -> bool {
        forall|i: int|
            0 <= i < self.buffers@.len() ==> (#[trigger] self.buffers@[i]).wf(
                self.num_nodes as nat,
            ) && self.buffers@[i].fresh()
    }

    /// A pool with `size` buffers for `num_nodes` nodes.
    pub fn new(num_nodes: usize, size: usize) -> (r: Self)
        ensures
            r.wf(),
            r.num_nodes == num_nodes,
            r.buffers@.len() == size,
    {
        let mut buffers: Vec<AstarBuffers> = Vec::new();
        for i in 0..size
            invariant
                buffers@.len() == i,
                forall|k: int|
                    0 <= k < i ==> (#[trigger] buffers@[k]).wf(num_nodes as nat)
                        && buffers@[k].fresh(),
        {
            buffers.push(AstarBuffers::new(num_nodes));
        }
        AstarPool { buffers, num_nodes }
    }

    /// Takes a buffer out; makes one where the pool is empty.
    pub fn acquire(&mut self) -> (r: AstarBuffers)
        requires
            old(self).wf(),
        ensures
            final(self).wf(),
            final(self).num_nodes == old(self).num_nodes,
            r.wf(old(self).num_nodes as nat),
            r.fresh(),
            old(self).buffers@.len() > 0 ==> r == old(self).buffers@.last()
                && final(self).buffers@ == old(self).buffers@.drop_last(),
            old(self).buffers@.len() == 0 ==> final(self).buffers@ == old(self).buffers@,
    {
        match self.buffers.pop() {
            Some(b) => {
                proof {
                    let last = old(self).buffers@.len() - 1;
                    assert(old(self).buffers@[last].fresh());
                    assert forall|i: int| 0 <= i < self.buffers@.len() implies (
                    #[trigger] self.buffers@[i]).wf(self.num_nodes as nat)
                        && self.buffers@[i].fresh() by {
                        assert(self.buffers@[i] == old(self).buffers@[i]);
                    }
                }
                b
            },
            None => AstarBuffers::new(self.num_nodes),
        }
    }

    /// Puts a buffer back after resetting it.
    pub fn release(&mut self, buf: AstarBuffers)
        requires
            old(self).wf(),
            buf.wf(old(self).num_nodes as nat),
        ensures
            final(self).wf(),
            final(self).num_nodes == old(self).num_nodes,
            final(self).buffers@.len() == old(self).buffers@.len() + 1,
            final(self).buffers@.drop_last() == old(self).buffers@,
    {
        let mut buf = buf;
        buf.reset();
        self.buffers.push(buf);
        assert(self.buffers@.drop_last() =~= old(self).buffers@);
        assert forall|i: int| 0 <= i < self.buffers@.len() implies (
        #[trigger] self.buffers@[i]).wf(self.num_nodes as nat) && self.buffers@[i].fresh() by {
            if i < old(self).buffers@.len() {
                assert(self.buffers@[i] == old(self).buffers@[i]);
            }
        }
    }
}

} // verus!
