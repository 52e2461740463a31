//! The trie: the storage together with what holds of it, and insertion.

use vstd::prelude::*;
use vstd::arithmetic::power2::pow2;
use crate::af::AddressFamily;
use crate::consistency::{trie_inv, lemma_add_child, lemma_add_prefix, lemma_add_default_route,
    lemma_begin_insert, lemma_empty_store, lemma_inv_basics, lemma_inv_node_at};
use crate::errors::PrefixStoreError;
use crate::model::has_descendant;
use crate::levels::{stride_start, valid_strides, lemma_stride_start_bound,
    lemma_stride_start_grows};
use crate::node::{TreeBitMapNode, NewNodeOrIndex};
use crate::node_id::{lemma_path_of_nibble, lemma_path_of_truncated};
use crate::path::Path;
use crate::prefix_record::{InternalPrefixRecord, MergeUpdate};
use crate::stats::{StrideStats, stats_ok, count_node, count_of_len};
use crate::storage::{InMemStorage, StoredPrefix};
use crate::stride::valid_stride;

verus! {

/// A store of the prefixes of one address family.
pub struct TreeBitMap<AF: AddressFamily, M: MergeUpdate> {
    /// The nodes and the prefixes.
    pub store: InMemStorage<AF, M>,
    /// The number of nodes at each level, for each stride.
    pub stats: Vec<StrideStats>,
}

impl<AF: AddressFamily, M: MergeUpdate> View for TreeBitMap<AF, M> {
    type V = Map<Path, M>;

    /// The prefixes in the store, by their paths, each with its metadata.
    open spec fn view(&self) -> Map<Path, M> {
        self.store.prefixes().map_values(|stored: StoredPrefix<AF, M>| stored.record.meta)
    }
}

impl<AF: AddressFamily, M: MergeUpdate> TreeBitMap<AF, M> {
    /// The strides of the levels of the trie.
    pub open spec fn strides(self) -> Seq<u8> {
        self.store.strides()
    }

    /// The storage is well formed, its nodes and prefixes are consistent,
    /// and the counters count its nodes.
    pub open spec fn wf(self) -> bool {
        &&& self.store.wf()
        &&& trie_inv(
            self.store.nodes(),
            self.store.prefixes().dom(),
            self.store.prefixes().dom(),
            self.store.strides(),
            AF::width(),
        )
        &&& stats_ok(self.stats@, self.store.strides(), self.store.node_ids())
    }

    /// The number of times that the prefix at `p` was published.
    pub open spec fn serial(self, p: Path) -> usize {
        if self.store.prefixes().contains_key(p) {
            self.store.prefixes()[p].serial
        } else {
            0
        }
    }

    /// Whether the strides are ones that a store can have: each from three
    /// to five bits, and together the bits of an address.
    pub fn check_strides(strides: &Vec<u8>) -> (r: bool)
        ensures
            r == (valid_strides(strides@, AF::width()) && strides@.len() > 0),
    {
        let w: u8 = AF::bits();
        proof {
            AF::lemma_width();
        }
        let mut sum: u8 = 0;
        let mut i: usize = 0;
        while i < strides.len()
            invariant
                i <= strides.len(),
                w == AF::width(),
                1 <= w <= 128,
                sum == stride_start(strides@, i as nat),
                sum <= w,
                forall|j: int| 0 <= j < i ==> valid_stride(#[trigger] strides@[j]),
            decreases strides.len() - i,
        {
            let s = strides[i];
            if s < 3 || s > 5 {
                return false;
            }
            if s > w - sum {
                proof {
                    if valid_strides(strides@, AF::width()) {
                        lemma_stride_start_bound(strides@, AF::width(), (i + 1) as nat);
                    }
                }
                return false;
            }
            sum = sum + s;
            i += 1;
        }
        sum == w
    }

    /// An empty store with the given strides.
    ///
    /// The strides must be from three to five bits each and the bits of an
    /// address together; a store with other strides cannot be made ready.
    pub fn new(strides: Vec<u8>) -> (r: Result<Self, PrefixStoreError>)
        ensures
            r.is_ok() == valid_strides(strides@, AF::width()),
            r matches Ok(tree) ==> tree.wf() && tree@ == Map::<Path, M>::empty() && tree.strides()
                == strides@,
            r matches Err(e) ==> e == PrefixStoreError::StoreNotReadyError,
    {
        proof {
            AF::lemma_width();
        }
        if !Self::check_strides(&strides) {
            return Err(PrefixStoreError::StoreNotReadyError);
        }
        let ghost s = strides@;
        proof {
            lemma_stride_start_grows(s, 0, s.len());
        }
        let levels: u8 = strides.len() as u8;
        let first: u8 = strides[0];
        let mut stats: Vec<StrideStats> = Vec::new();
        stats.push(StrideStats::new(3, levels));
        stats.push(StrideStats::new(4, levels));
        stats.push(StrideStats::new(5, levels));
        let store: InMemStorage<AF, M> = InMemStorage::init(strides);
        proof {
            let none = Seq::<crate::node_id::StrideNodeId<AF>>::empty();
            assert forall|j: int, i: int| 0 <= j < 3 && 0 <= i < s.len() implies #[trigger] stats@[j].count_at(
                i,
            ) == if s[i] == j + 3 {
                count_of_len(none, stride_start(s, i as nat))
            } else {
                0
            } by {}
            assert(store.node_ids() =~= none.push(store.node_ids()[0]));
        }
        count_node::<AF>(
            &mut stats,
            first,
            0,
            Ghost(s),
            Ghost(AF::width()),
            Ghost(Seq::<crate::node_id::StrideNodeId<AF>>::empty()),
            Ghost(store.node_ids()[0]),
        );
        let tree = TreeBitMap { store, stats };
        proof {
            lemma_empty_store(TreeBitMapNode::empty(s[0]), s, AF::width());
            assert(tree.store.prefixes().dom() =~= Set::<Path>::empty());
            assert(tree@ =~= Map::<Path, M>::empty());
        }
        Ok(tree)
    }

    /// Whether `after` and `r` are what an insertion of `pfx` makes of this
    /// store and returns.
    ///
    /// An insertion fails only if the prefix is in the store and the merge
    /// of its metadata fails; the store is then left as it is. Otherwise
    /// the prefix is in the store afterwards, with the metadata that came
    /// if it was not in the store, and with the merged metadata if it was;
    /// it has been published once more, and nothing else has changed.
    pub open spec fn inserted(
        self,
        after: Self,
        pfx: InternalPrefixRecord<AF, M>,
        user_data: M::UserDataIn,
        r: Result<(), PrefixStoreError>,
    ) -> bool {
        let p = pfx.id()@;
        &&& after.strides() == self.strides()
        &&& !self@.contains_key(p) ==> r.is_ok()
        &&& r.is_ok() ==> after@ == self@.insert(
            p,
            if self@.contains_key(p) {
                self@[p].merged(pfx.meta, user_data)
            } else {
                pfx.meta
            },
        )
        &&& r.is_ok() ==> after.serial(p) == crate::storage::next_serial(self.serial(p))
        &&& r.is_err() ==> after@ == self@
        &&& forall|o: Path| o != p ==> after.serial(o) == self.serial(o)
        &&& after.store.prefix_ids() == if self@.contains_key(p) {
            self.store.prefix_ids()
        } else {
            self.store.prefix_ids().push(pfx.id())
        }
    }

    /// Puts a prefix in the store, with its metadata.
    ///
    /// If the prefix is in the store, the metadata that comes is merged
    /// into the metadata that is there, and the prefix has been published
    /// once more. If the merge fails, the store is left as it is and the
    /// failure is returned; nothing else makes an insertion fail.
    pub fn insert(&mut self, pfx: InternalPrefixRecord<AF, M>, user_data: &M::UserDataIn) -> (r:
        Result<(), PrefixStoreError>)
        requires
            old(self).wf(),
            pfx.id().wf(),
        ensures
            final(self).wf(),
            old(self).inserted(*final(self), pfx, *user_data, r),
    {
        let ghost p0 = pfx.id()@;
        let ghost old_prefixes = self.store.prefixes();
        let ghost w = AF::width();
        proof {
            pfx.id().lemma_view_wf();
            AF::lemma_width();
            self.store.lemma_wf();
        }
        if pfx.len == 0 {
            proof {
                assert(pow2(0) == 1) by {
                    vstd::arithmetic::power2::lemma2_to64();
                }
                assert(p0 == Path::root());
                lemma_add_default_route(
                    self.store.nodes(),
                    old_prefixes.dom(),
                    self.store.strides(),
                    w,
                );
            }
            let res = self.store.upsert_prefix(pfx, user_data);
            proof {
                if res.is_ok() {
                    assert(self.store.prefixes().dom() =~= old_prefixes.dom().insert(p0));
                    assert(self@ =~= old(self)@.insert(
                        p0,
                        if old(self)@.contains_key(p0) {
                            old(self)@[p0].merged(pfx.meta, *user_data)
                        } else {
                            pfx.meta
                        },
                    ));
                }
            }
            return res;
        }
        let mut stride_end: u8 = 0;
        let mut cur_i = self.store.get_root_node_id();
        let mut level: usize = 0;
        let pfx_id = pfx.get_prefix_id();
        proof {
            lemma_begin_insert(self.store.nodes(), old_prefixes.dom(), self.store.strides(), w, p0);
            lemma_inv_basics(
                self.store.nodes(),
                old_prefixes.dom(),
                old_prefixes.dom(),
                self.store.strides(),
                w,
            );
            p0.lemma_root_covers();
        }

        loop
            invariant
                self.store.wf(),
                self.store.prefixes() == old_prefixes,
                self.store.prefix_ids() == old(self).store.prefix_ids(),
                stats_ok(self.stats@, self.store.strides(), self.store.node_ids()),
                old_prefixes == old(self).store.prefixes(),
                self.store.strides() == old(self).store.strides(),
                trie_inv(
                    self.store.nodes(),
                    old_prefixes.dom(),
                    old_prefixes.dom().insert(p0),
                    self.store.strides(),
                    w,
                ),
                w == AF::width(),
                p0 == pfx.id()@,
                pfx_id == pfx.id(),
                pfx_id.wf(),
                p0.wf(),
                1 <= pfx.len <= w <= 128,
                level < self.store.strides().len(),
                stride_end == stride_start(self.store.strides(), level as nat),
                stride_end < pfx.len,
                cur_i.wf(),
                cur_i@ == p0.ancestor(stride_end as nat),
                self.store.nodes().contains_key(cur_i@),
            decreases self.store.strides().len() - level,
        {
            let ghost strides = self.store.strides();
            let ghost nodes = self.store.nodes();
            let ghost start = stride_end as nat;
            proof {
                lemma_inv_basics(
                    nodes,
                    old_prefixes.dom(),
                    old_prefixes.dom().insert(p0),
                    strides,
                    w,
                );
                lemma_stride_start_bound(strides, w, level as nat);
                lemma_inv_node_at(
                    nodes,
                    old_prefixes.dom(),
                    old_prefixes.dom().insert(p0),
                    strides,
                    w,
                    level as nat,
                    cur_i@,
                );
            }
            let stride = self.store.get_stride_sizes()[level];
            let levels = self.store.get_stride_sizes().len();
            let has_next = level + 1 < levels;
            let next: u8 = if has_next {
                self.store.get_stride_sizes()[level + 1]
            } else {
                0
            };
            let next_stride: Option<&u8> = if has_next {
                Some(&next)
            } else {
                None
            };
            let stride_start_bit = stride_end;
            stride_end = stride_end + stride;
            let nibble_len = if pfx.len < stride_end {
                stride + pfx.len - stride_end
            } else {
                stride
            };
            let is_last_stride = pfx.len <= stride_end;
            proof {
                lemma_path_of_nibble(
                    pfx.net.as_nat(),
                    w,
                    pfx.len as nat,
                    start,
                    nibble_len as nat,
                );
                p0.lemma_ancestor_extend(start, nibble_len as nat);
                if !is_last_stride {
                    if !has_next {
                        lemma_stride_start_bound(strides, w, (level + 1) as nat);
                    }
                }
            }
            let nibble = AF::get_nibble(pfx.net, stride_start_bit, nibble_len);

            let mut current_node = match self.store.retrieve_node(cur_i) {
                Some(node) => *node,
                None => {
                    return Err(PrefixStoreError::NodeNotFound);
                },
            };
            let ghost old_node = current_node;
            let ghost child_path = cur_i@.extend(nibble as nat, nibble_len as nat);
            match current_node.eval_node_or_prefix_at(
                nibble,
                nibble_len,
                cur_i,
                stride,
                next_stride,
                is_last_stride,
            ) {
                NewNodeOrIndex::NewNode(n) => {
                    // The child is stored before the node that says that it
                    // is there.
                    let new_id = self.store.acquire_new_node_id((pfx.net, stride_end));
                    proof {
                        lemma_path_of_truncated(
                            pfx.net.as_nat(),
                            w,
                            pfx.len as nat,
                            stride_end as nat,
                        );
                        assert(old_prefixes.dom().insert(p0).contains(p0));
                        assert(has_descendant(old_prefixes.dom().insert(p0), child_path));
                        lemma_add_child(
                            nodes,
                            old_prefixes.dom(),
                            old_prefixes.dom().insert(p0),
                            strides,
                            w,
                            level as nat,
                            cur_i@,
                            current_node,
                            nibble as nat,
                            n,
                        );
                    }
                    let ghost ids = self.store.node_ids();
                    let _ = self.store.store_node(new_id, n);
                    self.store.update_node(cur_i, current_node);
                    proof {
                        assert(self.store.nodes() =~= nodes.insert(cur_i@, current_node).insert(
                            new_id@,
                            n,
                        ));
                        self.store.lemma_wf();
                        lemma_stride_start_grows(strides, 0, strides.len());
                    }
                    // One node more at the next level.
                    count_node::<AF>(
                        &mut self.stats,
                        next,
                        (level + 1) as u8,
                        Ghost(strides),
                        Ghost(w),
                        Ghost(ids),
                        Ghost(new_id),
                    );
                    cur_i = new_id;
                },
                NewNodeOrIndex::ExistingNode(node_id) => {
                    proof {
                        assert(old_node.holds_child(cur_i@, child_path)) by {
                            old_node.lemma_holds_extended(cur_i@, nibble as nat, nibble_len as nat);
                        }
                    }
                    cur_i = node_id;
                },
                NewNodeOrIndex::NewPrefix => {
                    // The record is published before the node that says
                    // that it is there.
                    proof {
                        p0.lemma_ancestor_self();
                        lemma_add_prefix(
                            nodes,
                            old_prefixes.dom(),
                            old_prefixes.dom().insert(p0),
                            strides,
                            w,
                            level as nat,
                            cur_i@,
                            current_node,
                            nibble as nat,
                            nibble_len as nat,
                        );
                    }
                    let res = self.store.upsert_prefix(pfx, user_data);
                    self.store.update_node(cur_i, current_node);
                    proof {
                        assert(self.store.prefixes().dom() =~= old_prefixes.dom().insert(p0));
                        assert(self@ =~= old(self)@.insert(p0, pfx.meta));
                    }
                    return res;
                },
                NewNodeOrIndex::ExistingPrefix => {
                    proof {
                        p0.lemma_ancestor_self();
                        lemma_add_prefix(
                            nodes,
                            old_prefixes.dom(),
                            old_prefixes.dom().insert(p0),
                            strides,
                            w,
                            level as nat,
                            cur_i@,
                            current_node,
                            nibble as nat,
                            nibble_len as nat,
                        );
                        assert(old_prefixes.dom().insert(p0) =~= old_prefixes.dom());
                        assert(nodes.insert(cur_i@, current_node) =~= nodes);
                    }
                    let res = self.store.upsert_prefix(pfx, user_data);
                    proof {
                        if res.is_ok() {
                            assert(self.store.prefixes().dom() =~= old_prefixes.dom());
                            assert(self@ =~= old(self)@.insert(
                                p0,
                                old(self)@[p0].merged(pfx.meta, *user_data),
                            ));
                        }
                    }
                    return res;
                },
            }
            level += 1;
        }
    }
}

} // verus!
