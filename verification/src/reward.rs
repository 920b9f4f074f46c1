//! Which epoch is rewarded, and which anticone counts against it.
use vstd::prelude::*;

use crate::block_data::Block;
use crate::graph::{all_nodes, ConsensusGraphInner};
use crate::lineage::{
    ancestor, ancestor_at_depth, depth, lemma_ancestor_add, lemma_ancestor_null,
    lemma_ancestor_prefix, lemma_depth_is, lemma_depth_of_ancestor, parent_of,
};
use crate::node::arena_get;
use crate::types::{ANTICONE_PENALTY_UPPER_EPOCH_COUNT, H256, NULL, REWARD_EPOCH_COUNT};

verus! {

impl ConsensusGraphInner {
    /// The block `k` steps before a block on the chain of parents.
    pub open spec fn back(&self, x: usize, k: nat) -> usize {
        ancestor(self.parents(), x, k)
    }

    /// Takes the parent of a block `k` times, as far as there are parents.
    fn go_back(&self, x: usize, k: u64) -> (r: usize)
        requires
            self.wf(),
            x == NULL || self.has(x),
        ensures
            r == self.back(x, k as nat),
            r == NULL || self.has(r),
    {
        let mut r: usize = x;
        let mut i: u64 = 0;
        while i < k && r != NULL
            invariant
                i <= k,
                self.wf(),
                r == NULL || self.has(r),
                r == self.back(x, i as nat),
            decreases k - i,
        {
            proof {
                assert(self.nodes().contains_key(r));
            }
            r = arena_get(&self.arena, r).parent;
            i = i + 1;
        }
        proof {
            if r == NULL {
                lemma_ancestor_add(self.parents(), x, i as nat, (k - i) as nat);
                self.lemma_null_parent();
                lemma_ancestor_null(self.parents(), (k - i) as nat);
            }
        }
        r
    }

    proof fn lemma_null_parent(&self)
        requires
            self.wf(),
        ensures
            !self.parents().contains_key(NULL),
    {
        if self.nodes().contains_key(NULL) {
            assert(self.has(NULL));
        }
    }

    /// The number of the era of a block, by its height: the genesis of an era is the first block of
    /// that era.
    pub open spec fn era_number(&self, x: usize) -> int {
        if self.inner_conf.era_epoch_count > 0 {
            self.node(x).height as int / (self.inner_conf.era_epoch_count as int)
        } else {
            0
        }
    }

    /// Whether the anticone of a rewarded block can be cut off at `y`: that is in the same era.
    pub open spec fn can_cut_off(&self, rewarded: usize, y: usize) -> bool {
        self.era_number(y) == self.era_number(rewarded)
    }

    /// Whether the epoch of `rewarded` gets its rewards from the epoch of `x`, with the anticone
    /// cut off at `cutoff`: `rewarded` is the reward distance before `x`, and `cutoff` is the
    /// last block before `x`, at most the penalty distance after `rewarded`, at which it can be cut
    /// off.
    pub open spec fn rewards(&self, x: usize, rewarded: usize, cutoff: usize) -> bool {
        &&& rewarded == self.back(x, REWARD_EPOCH_COUNT as nat)
        &&& rewarded != NULL
        &&& exists|k: nat| #[trigger] self.cut_off_at(x, rewarded, cutoff, k)
    }

    /// Whether `cutoff` is `k` steps before `x`, and is the first block there at which the anticone
    /// of `rewarded` can be cut off.
    pub open spec fn cut_off_at(&self, x: usize, rewarded: usize, cutoff: usize, k: nat) -> bool {
        &&& REWARD_EPOCH_COUNT - ANTICONE_PENALTY_UPPER_EPOCH_COUNT <= k <= REWARD_EPOCH_COUNT
        &&& cutoff == self.back(x, k)
        &&& self.can_cut_off(rewarded, cutoff)
        &&& forall|j: nat|
            REWARD_EPOCH_COUNT - ANTICONE_PENALTY_UPPER_EPOCH_COUNT <= j < k ==> !self.can_cut_off(
                rewarded,
                #[trigger] self.back(x, j),
            )
    }

    fn cuts_off(&self, rewarded: usize, y: usize) -> (r: bool)
        requires
            self.has(rewarded),
            self.has(y),
        ensures
            r == self.can_cut_off(rewarded, y),
    {
        let count: u64 = self.inner_conf.era_epoch_count;
        count == 0 || arena_get(&self.arena, y).height / count == arena_get(
            &self.arena,
            rewarded,
        ).height / count
    }

    /// The pivot block whose epoch is rewarded once the epoch of a block is executed, and the
    /// block up to which its anticone counts. There is none for the blocks next to the
    /// genesis, or where the chain of parents ends before.
    pub fn get_pivot_reward_index(&self, epoch_arena_index: usize) -> (r: Option<(usize, usize)>)
        requires
            self.wf(),
            self.has(epoch_arena_index),
        ensures
            match r {
                Some(pair) => self.node(epoch_arena_index).height > REWARD_EPOCH_COUNT
                    && self.rewards(epoch_arena_index, pair.0, pair.1) && self.has(pair.0)
                    && self.has(pair.1),
                None => self.node(epoch_arena_index).height <= REWARD_EPOCH_COUNT || self.back(
                    epoch_arena_index,
                    REWARD_EPOCH_COUNT as nat,
                ) == NULL,
            },
    {
        if arena_get(&self.arena, epoch_arena_index).height <= REWARD_EPOCH_COUNT {
            return None;
        }
        let cut: u64 = REWARD_EPOCH_COUNT - ANTICONE_PENALTY_UPPER_EPOCH_COUNT;
        let mut cutoff: usize = self.go_back(epoch_arena_index, cut);
        let rewarded: usize = self.go_back(cutoff, ANTICONE_PENALTY_UPPER_EPOCH_COUNT);
        proof {
            lemma_ancestor_add(
                self.parents(),
                epoch_arena_index,
                cut as nat,
                ANTICONE_PENALTY_UPPER_EPOCH_COUNT as nat,
            );
        }
        if rewarded == NULL {
            return None;
        }
        let ghost mut k: nat = cut as nat;
        proof {
            self.lemma_back_node(epoch_arena_index, k, REWARD_EPOCH_COUNT as nat);
        }
        while !self.cuts_off(rewarded, cutoff)
            invariant
                self.wf(),
                self.has(epoch_arena_index),
                self.has(rewarded),
                self.has(cutoff),
                cut == REWARD_EPOCH_COUNT - ANTICONE_PENALTY_UPPER_EPOCH_COUNT,
                cut <= k <= REWARD_EPOCH_COUNT,
                cutoff == self.back(epoch_arena_index, k),
                rewarded == self.back(epoch_arena_index, REWARD_EPOCH_COUNT as nat),
                forall|j: nat|
                    cut <= j < k ==> !self.can_cut_off(
                        rewarded,
                        #[trigger] self.back(epoch_arena_index, j),
                    ),
            decreases REWARD_EPOCH_COUNT - k,
        {
            proof {
                assert(k < REWARD_EPOCH_COUNT);
                assert(self.nodes().contains_key(cutoff));
                k = k + 1;
                self.lemma_back_node(epoch_arena_index, k, REWARD_EPOCH_COUNT as nat);
            }
            cutoff = arena_get(&self.arena, cutoff).parent;
        }
        assert(self.cut_off_at(epoch_arena_index, rewarded, cutoff, k));
        Some((rewarded, cutoff))
    }

    /// What is before a block that has an ancestor that far back is a block.
    pub proof fn lemma_back_node(&self, x: usize, j: nat, k: nat)
        requires
            self.wf(),
            self.has(x),
            j <= k,
            self.back(x, k) != NULL,
        ensures
            self.back(x, j) != NULL,
            self.has(self.back(x, j)),
        decreases j,
    {
        self.lemma_null_parent();
        lemma_ancestor_prefix(self.parents(), x, j, k);
        if j > 0 {
            self.lemma_back_node(x, (j - 1) as nat, k);
            assert(self.nodes().contains_key(self.back(x, (j - 1) as nat)));
        }
    }

    /// Whether the height of every block is one more than that of its parent.
    pub open spec fn heights_wf(&self) -> bool {
        forall|i: usize| #[trigger]
            self.has(i) && self.node(i).parent != NULL ==> self.node(i).height == self.node(
                self.node(i).parent,
            ).height + 1
    }

    /// The heights along a line.
    pub proof fn lemma_back_height(&self, x: usize, k: nat)
        requires
            self.wf(),
            self.heights_wf(),
            self.has(x),
            self.back(x, k) != NULL,
        ensures
            self.node(self.back(x, k)).height + k == self.node(x).height,
        decreases k,
    {
        if k > 0 {
            self.lemma_back_node(x, (k - 1) as nat, k);
            self.lemma_back_height(x, (k - 1) as nat);
            let y = self.back(x, (k - 1) as nat);
            assert(self.nodes().contains_key(y));
            assert(self.node(y).parent == self.back(x, k));
        }
    }

    /// Whether the eras of blocks are those that insertion gives them.
    pub open spec fn eras_wf(&self) -> bool {
        forall|i: usize| #[trigger]
            self.has(i) && self.node(i).parent != NULL ==> self.node(i).era_block
                == self.era_genesis_with_parent(self.node(i).parent, 0)
    }

    /// Whether the blocks up to `n` steps before `x` stand in the tree as in the arena, with depths
    /// that are their heights above the era genesis.
    pub open spec fn line_in_tree(&self, x: usize, n: nat) -> bool {
        forall|j: nat| #![trigger self.back(x, j)]
            j <= n ==> {
                &&& self.weight_tree.has(self.back(x, j))
                &&& parent_of(self.weight_tree.parents(), self.back(x, j)) == self.node(
                    self.back(x, j),
                ).parent
                &&& depth(self.weight_tree.parents(), self.back(x, j))
                    + self.cur_era_genesis_height == self.node(self.back(x, j)).height
            }
    }

    /// Along a line that stands in the tree as in the arena, steps are the same in both.
    proof fn lemma_line_steps(&self, x: usize, n: nat, j: nat, m: nat)
        requires
            self.wf(),
            self.line_in_tree(x, n),
            j + m <= n + 1,
        ensures
            ancestor(self.weight_tree.parents(), self.back(x, j), m) == self.back(x, j + m),
        decreases m,
    {
        if m > 0 {
            self.lemma_line_steps(x, n, j, (m - 1) as nat);
            let y = self.back(x, (j + m - 1) as nat);
            assert(self.weight_tree.has(y));
            assert(self.has(y));
            assert(self.nodes().contains_key(y));
        }
    }

    /// The era of a block on a line: what stands at the height of its era genesis on the line.
    proof fn lemma_era_on_line(&self, x: usize, n: nat, j: nat, m: nat, at: int)
        requires
            self.wf(),
            self.heights_wf(),
            self.eras_wf(),
            self.has(x),
            self.line_in_tree(x, n),
            j < m <= n,
            self.inner_conf.era_epoch_count > 0,
            at == self.era_genesis_height(self.node(self.back(x, j + 1)).height as int, 0),
            self.cur_era_genesis_height <= at <= self.node(self.back(x, m)).height,
        ensures
            self.node(self.back(x, j)).era_block == ancestor_at_depth(
                self.weight_tree.parents(),
                self.back(x, m),
                (at - self.cur_era_genesis_height) as nat,
            ),
    {
        let tp = self.weight_tree.parents();
        let y = self.back(x, j);
        let p = self.back(x, j + 1);
        let b = self.back(x, m);
        assert(self.weight_tree.has(y) && self.weight_tree.has(p) && self.weight_tree.has(b));
        assert(self.has(y));
        self.weight_tree.lemma_ranked();
        self.weight_tree.lemma_parents(p);
        self.weight_tree.lemma_parents(b);
        let steps = (m - j - 1) as nat;
        self.lemma_line_steps(x, n, j + 1, steps);
        self.lemma_null_parent();
        assert(p != NULL && b != NULL) by {
            assert(self.has(p) && self.has(b));
        }
        assert(self.node(y).parent == p) by {
            assert(self.nodes().contains_key(y));
        }
        lemma_depth_of_ancestor(tp, self.weight_tree.ranks(), p, steps);
        let d = (at - self.cur_era_genesis_height) as nat;
        lemma_ancestor_add(tp, p, steps, (depth(tp, b) - d) as nat);
    }

    /// The rewarded epoch is the reward distance below the epoch that pays it. The anticone counts
    /// for the penalty distance, or up to the parent of the genesis of the next era, whichever is
    /// less; `next_era` is the height of that genesis.
    pub proof fn law_reward_heights(&self, x: usize, rewarded: usize, cutoff: usize, next_era: int)
        requires
            self.wf(),
            self.heights_wf(),
            self.has(x),
            self.rewards(x, rewarded, cutoff),
            self.inner_conf.era_epoch_count > 0,
            next_era % (self.inner_conf.era_epoch_count as int) == 0,
            next_era - self.inner_conf.era_epoch_count <= self.node(rewarded).height < next_era,
        ensures
            self.node(x).height - self.node(rewarded).height == REWARD_EPOCH_COUNT,
            self.node(cutoff).height - self.node(rewarded).height == (if next_era - 1 - self.node(
                rewarded,
            ).height < ANTICONE_PENALTY_UPPER_EPOCH_COUNT {
                next_era - 1 - self.node(rewarded).height
            } else {
                ANTICONE_PENALTY_UPPER_EPOCH_COUNT as int
            }),
    {
        let cut = (REWARD_EPOCH_COUNT - ANTICONE_PENALTY_UPPER_EPOCH_COUNT) as nat;
        let n = REWARD_EPOCH_COUNT as nat;
        let count = self.inner_conf.era_epoch_count as int;
        let k = choose|k: nat| #[trigger] self.cut_off_at(x, rewarded, cutoff, k);
        let h = self.node(rewarded).height as int;
        self.lemma_back_height(x, n);
        self.lemma_back_node(x, k, n);
        self.lemma_back_height(x, k);
        assert forall|j: nat| j <= n implies (self.can_cut_off(rewarded, #[trigger] self.back(x, j))
            <==> h + n - j < next_era) by {
            self.lemma_back_node(x, j, n);
            self.lemma_back_height(x, j);
            lemma_same_quotient(h, h + n - j, next_era, count);
        }
        let least = if h + n - cut < next_era {
            cut
        } else {
            (h + n - next_era + 1) as nat
        };
        assert(self.can_cut_off(rewarded, self.back(x, least)));
        assert(k == least);
    }

    /// The rewarded block is twelve steps before the one that pays, and the cutoff on the line between
    /// them: it is the latest block, from two steps before the paying one on, whose height falls into
    /// the same era as that of the rewarded block.
    pub proof fn law_reward_distance(&self, x: usize, rewarded: usize, cutoff: usize)
        requires
            self.rewards(x, rewarded, cutoff),
            self.inner_conf.era_epoch_count > 0,
        ensures
            rewarded == self.back(x, 12),
            ({
                let count = self.inner_conf.era_epoch_count;
                let era = self.node(rewarded).height / count;
                exists|k: nat|
                    2 <= k <= 12 && #[trigger] self.back(x, k) == cutoff && self.node(cutoff).height
                        / count == era && forall|j: nat|
                        2 <= j < k ==> self.node(#[trigger] self.back(x, j)).height / count != era
            }),
    {
        let k = choose|k: nat| #[trigger] self.cut_off_at(x, rewarded, cutoff, k);
        let count = self.inner_conf.era_epoch_count;
        assert(self.back(x, k) == cutoff);
        assert forall|j: nat| 2 <= j < k implies self.node(#[trigger] self.back(x, j)).height
            / count != self.node(rewarded).height / count by {
            assert(!self.can_cut_off(rewarded, self.back(x, j)));
        }
    }

    /// A cutoff is in the era of the rewarded block as insertion sets eras, too, unless the rewarded
    /// block is the genesis of an era: the era that insertion gives a block is that of its parent.
    pub proof fn law_cutoff_keeps_era(
        &self,
        x: usize,
        rewarded: usize,
        cutoff: usize,
        next_era: int,
    )
        requires
            self.wf(),
            self.heights_wf(),
            self.eras_wf(),
            self.has(x),
            self.rewards(x, rewarded, cutoff),
            self.line_in_tree(x, REWARD_EPOCH_COUNT as nat),
            self.inner_conf.era_epoch_count > 0,
            self.cur_era_genesis_height as int % (self.inner_conf.era_epoch_count as int) == 0,
            next_era % (self.inner_conf.era_epoch_count as int) == 0,
            next_era - self.inner_conf.era_epoch_count < self.node(rewarded).height < next_era,
        ensures
            self.same_era(rewarded, cutoff),
    {
        let n = REWARD_EPOCH_COUNT as nat;
        let count = self.inner_conf.era_epoch_count as int;
        let geh = self.cur_era_genesis_height as int;
        let tp = self.weight_tree.parents();
        let h = self.node(rewarded).height as int;
        let j = choose|k: nat| #[trigger] self.cut_off_at(x, rewarded, cutoff, k);
        self.law_reward_heights(x, rewarded, cutoff, next_era);
        if j < n {
            let p = self.back(x, j + 1);
            self.lemma_back_node(x, j, n);
            self.lemma_back_node(x, j + 1, n);
            self.lemma_back_height(x, j);
            self.lemma_back_height(x, j + 1);
            self.lemma_back_height(x, n);
            let first = next_era - count;
            lemma_floor(next_era, count);
            lemma_floor(geh, count);
            lemma_floor_below(next_era, geh, h, count);
            self.weight_tree.lemma_ranked();
            assert(self.weight_tree.has(rewarded) && self.weight_tree.has(p));
            self.weight_tree.lemma_parents(rewarded);
            // The rewarded block has a parent, as it is not at the height of the era genesis.
            let q = self.node(rewarded).parent;
            assert(self.nodes().contains_key(rewarded));
            assert(self.has(rewarded));
            self.lemma_tree_not_null();
            if q == NULL {
                assert(ancestor(tp, rewarded, 0) == rewarded);
                assert(ancestor(tp, rewarded, 1) == NULL);
                lemma_depth_is(tp, rewarded, 0);
            }
            lemma_floor_is(self.node(q).height as int, first, count);
            self.weight_tree.lemma_parents(q);
            let d = (first - geh) as nat;
            assert(self.node(rewarded).era_block == ancestor_at_depth(tp, q, d));
            // The tree parent of the rewarded block is its parent, one less deep.
            assert(ancestor(tp, rewarded, 0) == rewarded);
            assert(ancestor(tp, rewarded, 1) == q);
            lemma_depth_of_ancestor(tp, self.weight_tree.ranks(), rewarded, 1);
            lemma_ancestor_add(tp, rewarded, 1, (depth(tp, q) - d) as nat);
            lemma_floor_is(self.node(p).height as int, first, count);
            self.lemma_era_on_line(x, n, j, n, first);
        }
    }

    proof fn lemma_tree_not_null(&self)
        requires
            self.wf(),
        ensures
            !self.weight_tree.parents().contains_key(NULL),
    {
        self.weight_tree.lemma_ranked();
    }

    /// Whether the blocks of the epoch of a block are all known.
    pub open spec fn epoch_blocks_known(&self, x: usize) -> bool {
        forall|k: int|
            0 <= k < self.node(x).data.ordered_executable_epoch_blocks@.len()
                ==> self.data_man.blocks@.contains_key(
                self.node(#[trigger] self.node(x).data.ordered_executable_epoch_blocks@[k]).hash,
            )
    }

    /// The blocks of the epoch of a block, in execution order.
    pub fn get_executable_epoch_blocks(&self, epoch_arena_index: usize) -> (r: Vec<&Block>)
        requires
            self.wf(),
            self.has(epoch_arena_index),
            self.epoch_blocks_known(epoch_arena_index),
        ensures
            r@.len() == self.node(epoch_arena_index).data.ordered_executable_epoch_blocks@.len(),
            forall|k: int|
                0 <= k < r@.len() ==> *#[trigger] r@[k] == self.data_man.blocks@[self.node(
                    self.node(epoch_arena_index).data.ordered_executable_epoch_blocks@[k],
                ).hash],
    {
        let mut r: Vec<&Block> = Vec::new();
        let list: &Vec<usize> = &arena_get(
            &self.arena,
            epoch_arena_index,
        ).data.ordered_executable_epoch_blocks;
        let mut i: usize = 0;
        assert(self.nodes().contains_key(epoch_arena_index));
        while i < list.len()
            invariant
                i <= list.len(),
                self.wf(),
                self.epoch_blocks_known(epoch_arena_index),
                all_nodes(self.nodes(), list@),
                list@ == self.node(epoch_arena_index).data.ordered_executable_epoch_blocks@,
                r@.len() == i,
                forall|k: int|
                    0 <= k < i ==> *#[trigger] r@[k] == self.data_man.blocks@[self.node(
                        list@[k],
                    ).hash],
            decreases list.len() - i,
        {
            let hash: H256 = arena_get(&self.arena, list[i]).hash;
            let block: &Block = self.data_man.block_by_hash(&hash).unwrap();
            r.push(block);
            i = i + 1;
        }
        r
    }
}

/// Rounding down to a multiple.
proof fn lemma_floor(x: int, count: int)
    requires
        count > 0,
    ensures
        x / count * count <= x < x / count * count + count,
        x % count == 0 ==> x / count * count == x,
{
    vstd::arithmetic::div_mod::lemma_fundamental_div_mod(x, count);
    vstd::arithmetic::div_mod::lemma_mod_division_less_than_divisor(x, count);
    vstd::arithmetic::mul::lemma_mul_is_commutative(count, x / count);
}

/// The multiple below a number is the one that is near enough.
proof fn lemma_floor_is(x: int, first: int, count: int)
    requires
        count > 0,
        first % count == 0,
        first <= x < first + count,
    ensures
        x / count * count == first,
{
    lemma_floor(first, count);
    let q = first / count;
    assert(first == q * count);
    vstd::arithmetic::mul::lemma_mul_is_commutative(q, count);
    vstd::arithmetic::div_mod::lemma_fundamental_div_mod_converse(x, count, q, x - first);
}

proof fn lemma_floor_grows(next: int, x: int, count: int)
    requires
        count > 0,
        next % count == 0,
        next <= x,
    ensures
        next <= x / count * count,
{
    lemma_floor(next, count);
    vstd::arithmetic::div_mod::lemma_div_is_ordered(next, x, count);
    vstd::arithmetic::mul::lemma_mul_inequality(next / count, x / count, count);
}

/// A multiple that is not above a number is not above the multiple below it.
proof fn lemma_floor_below(next: int, low: int, h: int, count: int)
    requires
        count > 0,
        next % count == 0,
        low % count == 0,
        next - count <= h < next,
    ensures
        (next - count) % count == 0,
        low <= h ==> low <= next - count,
{
    let q = next / count;
    lemma_floor(next, count);
    vstd::arithmetic::mul::lemma_mul_is_distributive_sub_other_way(count, q, 1);
    assert((q - 1) * count == next - count);
    vstd::arithmetic::div_mod::lemma_mod_multiples_basic(q - 1, count);
    if low <= h {
        lemma_floor_is(h, next - count, count);
        lemma_floor_grows(low, h, count);
    }
}

/// A number that is not below another has the same quotient as that if both are below the next
/// multiple.
proof fn lemma_same_quotient(h: int, y: int, next: int, count: int)
    requires
        count > 0,
        next % count == 0,
        next - count <= h < next,
        h <= y,
    ensures
        y / count == h / count <==> y < next,
{
    let q = next / count;
    lemma_floor(next, count);
    vstd::arithmetic::mul::lemma_mul_is_distributive_sub_other_way(count, q, 1);
    vstd::arithmetic::mul::lemma_mul_is_commutative(q - 1, count);
    vstd::arithmetic::div_mod::lemma_fundamental_div_mod_converse(h, count, q - 1, h - next + count);
    if y < next {
        vstd::arithmetic::div_mod::lemma_fundamental_div_mod_converse(
            y,
            count,
            q - 1,
            y - next + count,
        );
    } else {
        vstd::arithmetic::div_mod::lemma_div_is_ordered(next, y, count);
    }
}

} // verus!
