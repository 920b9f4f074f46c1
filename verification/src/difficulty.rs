//! The difficulty that the next block has to meet.
use vstd::prelude::*;

use crate::graph::ConsensusGraphInner;
use crate::node::arena_get;
use crate::types::{H256, U256};

verus! {

impl ConsensusGraphInner {
    /// Whether a height is where a period of constant difficulty ends.
    pub open spec fn ends_period(&self, height: int) -> bool {
        height % (self.pow_config.difficulty_adjustment_epoch_period as int) == 0
    }

    /// How many blocks the epoch of a block has.
    pub fn epoch_block_count(&self, hash: &H256) -> (r: usize)
        requires
            self.wf(),
            self.hash_to_arena_indices@.contains_key(*hash),
        ensures
            r == self.node(
                self.hash_to_arena_indices@[*hash],
            ).data.ordered_executable_epoch_blocks@.len(),
    {
        let index: usize = *self.hash_to_arena_indices.get(hash).unwrap();
        arena_get(&self.arena, index).data.ordered_executable_epoch_blocks.len()
    }

    /// The difficulty that a child of `x` has to meet, where `target` is the difficulty that the
    /// period that ends at `x` calls for.
    pub open spec fn difficulty_after(&self, x: usize, target: U256) -> U256 {
        if self.node(x).height < self.pow_config.difficulty_adjustment_epoch_period {
            U256 { high: 0, low: self.pow_config.initial_difficulty as u128 }
        } else if !self.ends_period(self.node(x).height as int) {
            self.node(x).difficulty
        } else {
            target
        }
    }

    /// The difficulty that a child of a block has to meet: in the first period the initial one,
    /// inside a period that of the parent, and at the end of a period `target`, which is what
    /// the blocks of the period call for.
    pub fn expected_difficulty(&self, parent_hash: &H256, target: &U256) -> (r: U256)
        requires
            self.wf(),
            self.hash_to_arena_indices@.contains_key(*parent_hash),
            self.pow_config.difficulty_adjustment_epoch_period > 0,
        ensures
            r == self.difficulty_after(self.hash_to_arena_indices@[*parent_hash], *target),
    {
        let parent_arena_index: usize = *self.hash_to_arena_indices.get(parent_hash).unwrap();
        let parent_epoch: u64 = arena_get(&self.arena, parent_arena_index).height;
        let period: u64 = self.pow_config.difficulty_adjustment_epoch_period;
        if parent_epoch < period {
            return U256::from_u64(self.pow_config.initial_difficulty);
        }
        proof {
            lemma_period(parent_epoch as int, period as int);
        }
        let last_period_upper: u64 = parent_epoch / period * period;
        if last_period_upper != parent_epoch {
            arena_get(&self.arena, parent_arena_index).difficulty
        } else {
            *target
        }
    }

    /// The difficulty that is to be met once `x` is the tip of the pivot chain, where `target` is
    /// the difficulty that the period that ends at `x` calls for.
    pub open spec fn adjusted_difficulty(&self, x: usize, target: U256) -> U256 {
        if self.node(x).height == 0 {
            U256 { high: 0, low: self.pow_config.initial_difficulty as u128 }
        } else if self.ends_period(self.node(x).height as int) {
            target
        } else {
            self.node(x).difficulty
        }
    }

    /// Sets the current difficulty for a new tip of the pivot chain. Where the tip prolongs the
    /// pivot chain, it must have met the current difficulty.
    pub fn adjust_difficulty(&mut self, new_best_arena_index: usize, target: &U256)
        requires
            old(self).wf(),
            old(self).has(new_best_arena_index),
            old(self).node(new_best_arena_index).height > 0 ==> old(
                self,
            ).pow_config.difficulty_adjustment_epoch_period > 0,
            old(self).pivot_chain@.last() == old(self).node(new_best_arena_index).parent ==> old(
                self,
            ).current_difficulty == old(self).node(new_best_arena_index).difficulty,
        ensures
            final(self).wf(),
            *final(self) == (ConsensusGraphInner {
                current_difficulty: old(self).adjusted_difficulty(new_best_arena_index, *target),
                ..*old(self)
            }),
    {
        let ghost before = *self;
        let epoch: u64 = arena_get(&self.arena, new_best_arena_index).height;
        if epoch == 0 {
            self.current_difficulty = U256::from_u64(self.pow_config.initial_difficulty);
        } else {
            let period: u64 = self.pow_config.difficulty_adjustment_epoch_period;
            proof {
                lemma_period(epoch as int, period as int);
            }
            if epoch == epoch / period * period {
                self.current_difficulty = *target;
            } else {
                self.current_difficulty = arena_get(&self.arena, new_best_arena_index).difficulty;
            }
        }
        proof {
            before.lemma_wf_difficulty(self);
        }
    }

    /// Being well formed does not depend on the current difficulty.
    proof fn lemma_wf_difficulty(&self, other: &Self)
        requires
            self.wf(),
            *other == (ConsensusGraphInner { current_difficulty: other.current_difficulty, ..*self }),
        ensures
            other.wf(),
    {
        assert(other.nodes() == self.nodes());
        assert forall|i: usize| #[trigger] other.has(i) implies other.node(
            i,
        ).data.sequence_number < other.sequence_number_of_block_entrance by {
            assert(self.has(i));
        }
        assert(other.hashes_wf()) by {
            assert(self.hashes_wf());
        }
    }

    /// Once the current difficulty is adjusted to a new tip, it is the difficulty that a child
    /// of the tip has to meet, if the blocks of the first period have the initial difficulty.
    pub proof fn law_adjusted_is_expected(&self, x: usize, target: U256)
        requires
            self.has(x),
            self.pow_config.difficulty_adjustment_epoch_period > 0,
            0 < self.node(x).height < self.pow_config.difficulty_adjustment_epoch_period
                ==> self.node(x).difficulty == (U256 {
                high: 0,
                low: self.pow_config.initial_difficulty as u128,
            }),
        ensures
            self.adjusted_difficulty(x, target) == self.difficulty_after(x, target),
    {
        let height = self.node(x).height as int;
        let period = self.pow_config.difficulty_adjustment_epoch_period as int;
        if 0 < height < period {
            vstd::arithmetic::div_mod::lemma_small_mod(height as nat, period as nat);
        }
    }

    /// All children of blocks of one period, past the first, have to meet the difficulty of
    /// their parents: it changes only at the end of a period.
    pub proof fn law_difficulty_changes_at_period_ends(&self, x: usize, target: U256)
        requires
            self.has(x),
            self.pow_config.difficulty_adjustment_epoch_period > 0,
            self.node(x).height >= self.pow_config.difficulty_adjustment_epoch_period,
            self.difficulty_after(x, target) != self.node(x).difficulty,
        ensures
            self.ends_period(self.node(x).height as int),
            self.difficulty_after(x, target) == target,
    {
    }

    /// At every positive height that is a multiple of the period, a child has to meet the target of
    /// the period that ends there, and so does the tip that the current difficulty is adjusted to,
    /// whatever the difficulty of the block itself is: higher or lower.
    pub proof fn law_period_end_takes_target(&self, x: usize, target: U256, periods: nat)
        requires
            self.pow_config.difficulty_adjustment_epoch_period > 0,
            periods > 0,
            self.node(x).height == periods * self.pow_config.difficulty_adjustment_epoch_period,
        ensures
            self.difficulty_after(x, target) == target,
            self.adjusted_difficulty(x, target) == target,
    {
        let period = self.pow_config.difficulty_adjustment_epoch_period as int;
        vstd::arithmetic::div_mod::lemma_mod_multiples_basic(periods as int, period);
        assert(periods * period >= period) by (nonlinear_arith)
            requires
                periods >= 1,
                period > 0,
        ;
    }

    /// Between two multiples of the period the target does not matter: a child has to meet the
    /// difficulty of its parent, or the initial one before the first multiple, and the current
    /// difficulty becomes that of the tip, or the initial one for the original genesis.
    pub proof fn law_inside_period_keeps_difficulty(
        &self,
        x: usize,
        target: U256,
        periods: nat,
        more: nat,
    )
        requires
            0 < more < self.pow_config.difficulty_adjustment_epoch_period,
            self.node(x).height == periods * self.pow_config.difficulty_adjustment_epoch_period
                + more,
        ensures
            self.adjusted_difficulty(x, target) == self.node(x).difficulty,
            periods > 0 ==> self.difficulty_after(x, target) == self.node(x).difficulty,
            periods == 0 ==> self.difficulty_after(x, target).value()
                == self.pow_config.initial_difficulty,
    {
        let period = self.pow_config.difficulty_adjustment_epoch_period as int;
        vstd::arithmetic::div_mod::lemma_fundamental_div_mod_converse(
            self.node(x).height as int,
            period,
            periods as int,
            more as int,
        );
        vstd::arithmetic::mul::lemma_mul_is_commutative(periods as int, period);
        if periods > 0 {
            assert(periods * period >= period) by (nonlinear_arith)
                requires
                    periods >= 1,
                    period > 0,
            ;
        }
    }

    /// On the original genesis the initial difficulty is to be met.
    pub proof fn law_first_difficulty(&self, x: usize, target: U256)
        requires
            self.pow_config.difficulty_adjustment_epoch_period > 0,
            self.node(x).height == 0,
        ensures
            self.difficulty_after(x, target).value() == self.pow_config.initial_difficulty,
            self.adjusted_difficulty(x, target).value() == self.pow_config.initial_difficulty,
    {
    }
}

proof fn lemma_period(height: int, period: int)
    requires
        0 <= height,
        0 < period,
    ensures
        0 <= height / period * period <= height,
        height / period * period == height <==> height % period == 0,
{
    vstd::arithmetic::div_mod::lemma_fundamental_div_mod(height, period);
    vstd::arithmetic::div_mod::lemma_mod_division_less_than_divisor(height, period);
    vstd::arithmetic::mul::lemma_mul_is_commutative(period, height / period);
    vstd::arithmetic::div_mod::lemma_div_pos_is_pos(height, period);
    vstd::arithmetic::mul::lemma_mul_nonnegative(height / period, period);
}

} // verus!
