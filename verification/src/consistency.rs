//! What the operations on the graph keep consistent.
use vstd::prelude::*;

use crate::block_data::BlockDataManager;
use crate::graph::{ConsensusGraphInner, ConsensusInnerConfig, ProofOfWorkConfig};
use crate::lineage::{lemma_on_path_parent, parent_of};
use crate::metadata::pivot_sets;
use crate::node::ConsensusGraphNode;
use crate::stable::with_epoch_number;
use crate::sums::set_sum;
use crate::types::{H256, NULL};

verus! {

/// Whether sets of blocks at the positions of a pivot chain are those whose last pivot block in the
/// past is at that position.
pub open spec fn sets_match(
    nodes: Map<usize, ConsensusGraphNode>,
    genesis_height: int,
    sets: Seq<Set<usize>>,
) -> bool {
    forall|j: int, x: usize|
        0 <= j < sets.len() ==> (#[trigger] sets[j].contains(x) <==> nodes.contains_key(x)
            && nodes[x].last_pivot_in_past == genesis_height + j)
}

/// The era genesis height for a parent is a multiple of the length of an era, and the distance to it
/// is less than that length; it is zero for a parent that is not above the offset.
pub proof fn law_era_genesis_height(inner: &ConsensusGraphInner, parent_height: int, offset: int)
    requires
        inner.inner_conf.era_epoch_count > 0,
        0 <= offset,
        0 <= parent_height,
    ensures
        ({
            let g = inner.era_genesis_height(parent_height, offset);
            let count = inner.inner_conf.era_epoch_count as int;
            &&& g % count == 0
            &&& 0 <= g
            &&& parent_height > offset ==> g <= parent_height - offset < g + count
            &&& parent_height <= offset ==> g == 0
        }),
{
    let count = inner.inner_conf.era_epoch_count as int;
    let x = parent_height - offset;
    if parent_height > offset {
        vstd::arithmetic::div_mod::lemma_fundamental_div_mod(x, count);
        vstd::arithmetic::div_mod::lemma_mod_division_less_than_divisor(x, count);
        vstd::arithmetic::mul::lemma_mul_is_commutative(count, x / count);
        vstd::arithmetic::div_mod::lemma_mod_multiples_basic(x / count, count);
        vstd::arithmetic::div_mod::lemma_div_pos_is_pos(x, count);
        vstd::arithmetic::mul::lemma_mul_nonnegative(x / count, count);
    } else {
        vstd::arithmetic::div_mod::lemma_small_mod(0, count as nat);
    }
}

/// Numbering an epoch anew forgets the number it had.
pub proof fn law_epoch_number_is_replaced(
    nodes: Map<usize, ConsensusGraphNode>,
    pivot: usize,
    first: u64,
    second: u64,
)
    requires
        nodes.contains_key(pivot),
    ensures
        with_epoch_number(with_epoch_number(nodes, pivot, first), pivot, second)
            == with_epoch_number(nodes, pivot, second),
{
    assert(with_epoch_number(with_epoch_number(nodes, pivot, first), pivot, second)
        =~= with_epoch_number(nodes, pivot, second));
}

impl ConsensusGraphInner {
    /// Whether the metadata of the pivot chain match the last pivot blocks of the nodes.
    pub open spec fn metadata_matches(&self) -> bool {
        &&& self.pivot_chain_metadata@.len() == self.pivot_chain@.len()
        &&& sets_match(
            self.nodes(),
            self.cur_era_genesis_height as int,
            pivot_sets(self.pivot_chain_metadata@),
        )
    }

    /// The first state has metadata that match, heights, eras and links that follow each other, and
    /// nothing is confirmed in it but its genesis, as the timer chain is not longer than it takes to
    /// confirm.
    pub proof fn law_first_state(
        &self,
        pow_config: ProofOfWorkConfig,
        data_man: BlockDataManager,
        inner_conf: ConsensusInnerConfig,
        genesis_hash: H256,
        stable_hash: H256,
    )
        requires
            self.is_first_state(pow_config, data_man, inner_conf, genesis_hash, stable_hash),
            inner_conf.timer_chain_beta > 0,
        ensures
            self.metadata_matches(),
            self.confirms(self.timer_chain@, self.timer_chain_accumulative_lca@),
            self.force_confirm(None) == self.cur_era_genesis_block_arena_index,
            self.heights_wf(),
            self.eras_wf(),
            self.tree_in_era(),
            self.links_match(self.nodes().dom()),
    {
        assert forall|i: usize| #[trigger] self.has(i) implies i == 0 by {
            assert(self.nodes().dom().contains(i));
        }
        let sets = pivot_sets(self.pivot_chain_metadata@);
        assert forall|j: int, x: usize| 0 <= j < sets.len() implies (#[trigger] sets[j].contains(x)
            <==> self.nodes().contains_key(x) && self.nodes()[x].last_pivot_in_past
            == self.cur_era_genesis_height + j) by {
            assert(self.nodes().dom().contains(x) <==> x == 0);
        }
    }

    /// Whether a block is left alone when metadata are recomputed from a height on.
    pub open spec fn stays(&self, start_at: int, to_update: Set<usize>, x: usize) -> bool {
        self.has(x) && !to_update.contains(x) && !self.pivot_between(
            x,
            start_at,
            self.pivot_height(),
        )
    }

    /// Recomputing the metadata of the pivot chain from a height on makes them match the last pivot
    /// blocks, if below that height they hold the blocks that are left alone, and all blocks that
    /// are left alone belong below that height.
    pub proof fn law_metadata_match(&self, start_at: int, to_update: Set<usize>)
        requires
            self.metadata_ready(start_at, to_update),
            self.cur_era_genesis_height <= start_at <= self.pivot_height(),
            start_at - self.cur_era_genesis_height <= self.pivot_chain_metadata@.len(),
            forall|i: int|
                0 <= i < self.pivot_chain@.len() ==> self.has(#[trigger] self.pivot_chain@[i]),
            forall|j: int, x: usize|
                0 <= j < start_at - self.cur_era_genesis_height ==> (#[trigger] pivot_sets(
                    self.pivot_chain_metadata@,
                )[j].contains(x) <==> self.stays(start_at, to_update, x) && self.node(
                    x,
                ).last_pivot_in_past == self.cur_era_genesis_height + j),
            forall|x: usize| #[trigger]
                self.stays(start_at, to_update, x) ==> self.node(x).last_pivot_in_past < start_at,
            forall|x: usize| #[trigger]
                to_update.contains(x) && !self.pivot_between(x, start_at, self.pivot_height())
                    ==> self.node(x).era_block != NULL && x
                    != self.cur_era_genesis_block_arena_index,
        ensures
            forall|j: int, x: usize|
                0 <= j < self.pivot_chain@.len() ==> (#[trigger] self.new_pivot_sets(
                    start_at,
                    to_update,
                )[j].contains(x) <==> self.has(x) && self.new_last_pivot(start_at, to_update, x)
                    == self.cur_era_genesis_height + j),
    {
        let sets = self.new_pivot_sets(start_at, to_update);
        assert forall|j: int, x: usize| 0 <= j < self.pivot_chain@.len() implies (
        #[trigger] sets[j].contains(x) <==> self.has(x) && self.new_last_pivot(
            start_at,
            to_update,
            x,
        ) == self.cur_era_genesis_height + j) by {
            let base = self.base_pivot_sets(start_at, self.pivot_height());
            let below = j < start_at - self.cur_era_genesis_height;
            assert(self.has(self.pivot_chain@[j]));
            if below {
                assert(base[j] == pivot_sets(self.pivot_chain_metadata@)[j]);
            }
            if to_update.contains(x) {
                assert(self.nodes().dom().contains(x));
            }
            if self.pivot_between(x, start_at, self.pivot_height()) {
                let i = self.pivot_chain@.index_of(x);
                assert(self.pivot_chain@[i] == x);
                assert(self.has(self.pivot_chain@[i]));
            }
            assert(self.stays(start_at, to_update, x) ==> self.node(x).last_pivot_in_past
                < start_at);
        }
    }

    /// The subtree weight of a block once the subtrees of barrier blocks are out.
    pub open spec fn shifted_weight(&self, barrier: Set<usize>, u: usize) -> int {
        self.weight_tree.value(u) + set_sum(
            barrier,
            Self::weight_shift(self.weight_tree.parents(), self.tree_weights(), u),
        )
    }

    /// Taking out barrier blocks keeps what the adaptive tree stands for: where the adaptive tree
    /// holds twice the subtree weight of a block less that of its parent plus the weight of the
    /// parent, it does so for the subtree weights without the barrier blocks too.
    pub proof fn law_barrier_keeps_leads(&self, barrier: Set<usize>, u: usize)
        requires
            barrier.finite(),
            self.barrier_ready(barrier),
            forall|i: usize| #[trigger]
                barrier.contains(i) ==> parent_of(self.weight_tree.parents(), i) == self.node(
                    i,
                ).parent,
            parent_of(self.weight_tree.parents(), u) != NULL,
            !barrier.contains(parent_of(self.weight_tree.parents(), u)),
            ({
                let p = parent_of(self.weight_tree.parents(), u);
                self.adaptive_tree.value(u) == 2 * self.weight_tree.value(u)
                    - self.weight_tree.value(p) + self.weight(p)
            }),
        ensures
            ({
                let p = parent_of(self.weight_tree.parents(), u);
                self.shifted_lead(barrier, u) == 2 * self.shifted_weight(barrier, u)
                    - self.shifted_weight(barrier, p) + self.weight(p)
            }),
    {
        let parents = self.weight_tree.parents();
        let p = parent_of(parents, u);
        let lead = self.lead_shift(parents, self.tree_weights(), u);
        let own = Self::weight_shift(parents, self.tree_weights(), u);
        let above = Self::weight_shift(parents, self.tree_weights(), p);
        assert forall|i: usize| #[trigger] barrier.contains(i) implies lead(i) == 2 * own(i)
            - above(i) by {
            lemma_on_path_parent(parents, p, i);
        }
        lemma_set_sum_combined(barrier, lead, own, above);
    }
}

/// The sum of twice a number less another one.
proof fn lemma_set_sum_combined(
    s: Set<usize>,
    f: spec_fn(usize) -> int,
    g: spec_fn(usize) -> int,
    h: spec_fn(usize) -> int,
)
    requires
        s.finite(),
        forall|i: usize| #[trigger] s.contains(i) ==> f(i) == 2 * g(i) - h(i),
    ensures
        set_sum(s, f) == 2 * set_sum(s, g) - set_sum(s, h),
    decreases s.len(),
{
    if s.len() > 0 {
        let x = s.choose();
        assert(s.contains(x));
        lemma_set_sum_combined(s.remove(x), f, g, h);
    }
}

} // verus!
