//! The counters of a trie: how many nodes there are at each level.
//!
//! There is one set of counters for each stride that a node can have. A
//! node is counted at its level, in the counters of its stride.

use vstd::prelude::*;
use crate::af::AddressFamily;
use crate::levels::{stride_start, valid_strides, lemma_stride_start_grows};
use crate::node_id::StrideNodeId;
use crate::stride::valid_stride;

verus! {

/// The number of nodes at one level.
#[derive(Debug, Clone, Copy, PartialEq, Eq)]
pub struct CreatedNodes {
    /// The level, counted from the root.
    pub depth_level: u8,
    /// The number of nodes at the level.
    pub count: usize,
}

/// The counters of the nodes of one stride.
pub struct StrideStats {
    /// The stride of the nodes that are counted.
    pub stride_len: u8,
    /// The number of nodes of this stride at each level.
    pub created_nodes: Vec<CreatedNodes>,
}

/// The counters of the two tries of a store for both address families.
pub struct Stats<'a> {
    pub v4: &'a Vec<StrideStats>,
    pub v6: &'a Vec<StrideStats>,
}

/// The number of identifiers in `ids` that have the length `len`.
pub open spec fn count_of_len<AF: AddressFamily>(ids: Seq<StrideNodeId<AF>>, len: nat) -> nat
    decreases ids.len(),
{
    if ids.len() == 0 {
        0
    } else if ids.last().len == len {
        count_of_len(ids.drop_last(), len) + 1
    } else {
        count_of_len(ids.drop_last(), len)
    }
}

/// No more identifiers have a length than there are.
pub proof fn lemma_count_of_len<AF: AddressFamily>(ids: Seq<StrideNodeId<AF>>, len: nat)
    ensures
        count_of_len(ids, len) <= ids.len(),
    decreases ids.len(),
{
    if ids.len() > 0 {
        lemma_count_of_len(ids.drop_last(), len);
    }
}

/// The counts after one more identifier.
pub proof fn lemma_count_of_len_push<AF: AddressFamily>(
    ids: Seq<StrideNodeId<AF>>,
    id: StrideNodeId<AF>,
    len: nat,
)
    ensures
        count_of_len(ids.push(id), len) == if id.len == len {
            count_of_len(ids, len) + 1
        } else {
            count_of_len(ids, len)
        },
{
    assert(ids.push(id).drop_last() =~= ids);
}

impl StrideStats {
    /// The counters count the levels up from zero, one after the other.
    pub open spec fn wf(self) -> bool {
        forall|i: int|
            0 <= i < self.created_nodes@.len() ==> (#[trigger] self.created_nodes@[i]).depth_level
                == i
    }

    /// The number of nodes counted at the level `i`.
    pub open spec fn count_at(self, i: int) -> usize {
        self.created_nodes@[i].count
    }

    /// Counters for the nodes of a stride, for a trie of `num_depth_levels`
    /// levels, with no node counted.
    pub fn new(stride_len: u8, num_depth_levels: u8) -> (r: Self)
        ensures
            r.wf(),
            r.stride_len == stride_len,
            r.created_nodes@.len() == num_depth_levels,
            forall|i: int| 0 <= i < num_depth_levels ==> #[trigger] r.count_at(i) == 0,
    {
        let mut created_nodes: Vec<CreatedNodes> = Vec::new();
        let mut n: u8 = 0;
        while n < num_depth_levels
            invariant
                n <= num_depth_levels,
                created_nodes@.len() == n,
                forall|i: int|
                    0 <= i < n ==> (#[trigger] created_nodes@[i]).depth_level == i
                        && created_nodes@[i].count == 0,
            decreases num_depth_levels - n,
        {
            created_nodes.push(CreatedNodes { depth_level: n, count: 0 });
            n += 1;
        }
        StrideStats { stride_len, created_nodes }
    }

    /// Counts one node more at the level `depth_level`. The count stays at
    /// the greatest number once that is reached.
    pub fn inc(&mut self, depth_level: u8)
        requires
            old(self).wf(),
            depth_level < old(self).created_nodes@.len(),
        ensures
            final(self).wf(),
            final(self).stride_len == old(self).stride_len,
            final(self).created_nodes@.len() == old(self).created_nodes@.len(),
            final(self).count_at(depth_level as int) == if old(self).count_at(depth_level as int)
                < usize::MAX {
                (old(self).count_at(depth_level as int) + 1) as usize
            } else {
                usize::MAX
            },
            forall|i: int|
                0 <= i < old(self).created_nodes@.len() && i != depth_level
                    ==> #[trigger] final(self).count_at(i) == old(self).count_at(i),
    {
        let counted = self.created_nodes[depth_level as usize];
        let count = if counted.count < usize::MAX {
            counted.count + 1
        } else {
            counted.count
        };
        self.created_nodes[depth_level as usize] = CreatedNodes { depth_level, count };
    }
}

/// The counters `stats` are those of a trie with the levels `strides` and
/// the nodes `ids`: there is one set of counters for each of the strides
/// three, four and five, and in it each level of that stride has the number
/// of its nodes, and each other level has none.
pub open spec fn stats_ok<AF: AddressFamily>(
    stats: Seq<StrideStats>,
    strides: Seq<u8>,
    ids: Seq<StrideNodeId<AF>>,
) -> bool {
    &&& stats.len() == 3
    &&& forall|j: int|
        0 <= j < 3 ==> {
            &&& (#[trigger] stats[j]).wf()
            &&& stats[j].stride_len == j + 3
            &&& stats[j].created_nodes@.len() == strides.len()
        }
    &&& forall|j: int, i: int|
        0 <= j < 3 && 0 <= i < strides.len() ==> #[trigger] stats[j].count_at(i) == if strides[i]
            == j + 3 {
            count_of_len(ids, stride_start(strides, i as nat))
        } else {
            0
        }
}

/// Counts a node that has been made at the level `depth_level`.
pub(crate) fn count_node<AF: AddressFamily>(
    stats: &mut Vec<StrideStats>,
    stride: u8,
    depth_level: u8,
    Ghost(strides): Ghost<Seq<u8>>,
    Ghost(w): Ghost<nat>,
    Ghost(ids): Ghost<Seq<StrideNodeId<AF>>>,
    Ghost(id): Ghost<StrideNodeId<AF>>,
)
    requires
        valid_strides(strides, w),
        depth_level < strides.len(),
        stride == strides[depth_level as int],
        id.len == stride_start(strides, depth_level as nat),
        ids.len() < usize::MAX,
        stats_ok(old(stats)@, strides, ids),
    ensures
        stats_ok(final(stats)@, strides, ids.push(id)),
{
    let ghost before = stats@;
    let j: usize = (stride - 3) as usize;
    proof {
        lemma_count_of_len(ids, stride_start(strides, depth_level as nat));
        assert(before[j as int].wf());
    }
    stats[j].inc(depth_level);
    proof {
        let after = stats@;
        assert(after.len() == 3);
        assert forall|k: int| 0 <= k < 3 implies {
            &&& (#[trigger] after[k]).wf()
            &&& after[k].stride_len == k + 3
            &&& after[k].created_nodes@.len() == strides.len()
        } by {
            if k != j {
                assert(after[k] == before[k]);
            }
        }
        assert forall|k: int, i: int| 0 <= k < 3 && 0 <= i < strides.len() implies #[trigger] after[k].count_at(
            i,
        ) == if strides[i] == k + 3 {
            count_of_len(ids.push(id), stride_start(strides, i as nat))
        } else {
            0
        } by {
            lemma_count_of_len_push(ids, id, stride_start(strides, i as nat));
            assert(before[k].count_at(i) == if strides[i] == k + 3 {
                count_of_len(ids, stride_start(strides, i as nat))
            } else {
                0
            });
            if i < depth_level {
                lemma_stride_start_grows(strides, i as nat, depth_level as nat);
            } else if i > depth_level {
                lemma_stride_start_grows(strides, depth_level as nat, i as nat);
            }
            if k != j {
                assert(after[k] == before[k]);
            }
        }
    }
}

} // verus!
