//! The storage of a store: the map of its nodes and the map of its
//! prefixes.
//!
//! A record is published in the map of the prefixes under its identifier,
//! together with a serial number that counts its publications. A record that
//! comes for an identifier that is taken is merged into the record that is
//! there.

use vstd::prelude::*;
use crossbeam_epoch::Guard;
use crate::af::AddressFamily;
use crate::buckets::Buckets;
use crate::errors::PrefixStoreError;
use crate::levels::valid_strides;
use crate::node::TreeBitMapNode;
use crate::node_id::{PrefixId, StrideNodeId, paths_of, all_wf, node_paths_of, all_nodes_wf,
    lemma_paths_of_push, lemma_node_paths_of_push};
use crate::path::Path;
use crate::prefix_record::{InternalPrefixRecord, MergeUpdate};

verus! {

/// A record as it is published: with the number of times that it was.
pub struct StoredPrefix<AF: AddressFamily, M: MergeUpdate> {
    pub record: InternalPrefixRecord<AF, M>,
    pub serial: usize,
}

/// The record of the prefix with the bits `net` and the length `len`, with
/// the metadata `meta`, as it is published for the time `serial`.
pub open spec fn stored<AF: AddressFamily, M: MergeUpdate>(
    net: AF,
    len: u8,
    meta: M,
    serial: usize,
) -> StoredPrefix<AF, M> {
    StoredPrefix { record: InternalPrefixRecord { net, len, meta }, serial }
}

/// The serial number after one more publication. It stays at the greatest
/// number once that is reached.
pub open spec fn next_serial(serial: usize) -> usize {
    if serial < usize::MAX {
        (serial + 1) as usize
    } else {
        serial
    }
}

/// The nodes and the prefixes of a store.
pub struct InMemStorage<AF: AddressFamily, M: MergeUpdate> {
    nodes: Buckets<TreeBitMapNode>,
    prefixes: Buckets<StoredPrefix<AF, M>>,
    node_ids: Vec<StrideNodeId<AF>>,
    prefix_ids: Vec<PrefixId<AF>>,
    default_route_prefix_serial: usize,
    strides: Vec<u8>,
}

impl<AF: AddressFamily, M: MergeUpdate> InMemStorage<AF, M> {
    /// The nodes, by their paths.
    pub closed spec fn nodes(self) -> Map<Path, TreeBitMapNode> {
        self.nodes@
    }

    /// The published records, by the paths of their prefixes.
    pub closed spec fn prefixes(self) -> Map<Path, StoredPrefix<AF, M>> {
        self.prefixes@
    }

    /// The strides of the levels of the trie.
    pub closed spec fn strides(self) -> Seq<u8> {
        self.strides@
    }

    /// The number of times that the default route was published.
    pub closed spec fn default_route_serial(self) -> usize {
        self.default_route_prefix_serial
    }

    /// The identifiers of the prefixes, in the order in which they were
    /// first published.
    pub closed spec fn prefix_ids(self) -> Seq<PrefixId<AF>> {
        self.prefix_ids@
    }

    /// The identifiers of the nodes, in the order in which they were
    /// published.
    pub closed spec fn node_ids(self) -> Seq<StrideNodeId<AF>> {
        self.node_ids@
    }

    /// The list of the identifiers of the prefixes names each prefix of the
    /// storage once, and the list of the identifiers of the nodes each
    /// node.
    pub open spec fn ids_ok(self) -> bool {
        &&& all_wf(self.prefix_ids())
        &&& paths_of(self.prefix_ids()).no_duplicates()
        &&& forall|p: Path| #[trigger]
            paths_of(self.prefix_ids()).contains(p) <==> self.prefixes().contains_key(p)
        &&& all_nodes_wf(self.node_ids())
        &&& node_paths_of(self.node_ids()).no_duplicates()
        &&& forall|n: Path| #[trigger]
            node_paths_of(self.node_ids()).contains(n) <==> self.nodes().contains_key(n)
    }

    /// The serial number of the slot of the path `p`: the number of times
    /// that a record was published there.
    pub open spec fn serial_of(self, p: Path) -> usize {
        if self.prefixes().contains_key(p) {
            self.prefixes()[p].serial
        } else {
            0
        }
    }

    /// What holds of the record published under the path `p`.
    pub open spec fn record_ok(self, p: Path) -> bool {
        let stored = self.prefixes()[p];
        &&& stored.record.id().wf()
        &&& stored.record.id()@ == p
        &&& stored.serial >= 1
    }

    /// The maps take the paths of the family, every record is published
    /// under the path of its prefix, every node is one that can be, and the
    /// serial number of the default route is that of its record.
    pub closed spec fn wf(self) -> bool {
        &&& self.nodes.wf()
        &&& self.prefixes.wf()
        &&& self.nodes.max_len() == AF::width()
        &&& self.prefixes.max_len() == AF::width()
        &&& forall|p: Path| #[trigger] self.prefixes@.contains_key(p) ==> self.record_ok(p)
        &&& forall|n: Path| #[trigger] self.nodes@.contains_key(n) ==> self.nodes@[n].wf()
        &&& self.ids_ok()
        &&& self.default_route_prefix_serial == if self.prefixes@.contains_key(Path::root()) {
            self.prefixes@[Path::root()].serial
        } else {
            0
        }
    }

    /// What is known of every record and of every node of a storage that is
    /// well formed.
    pub proof fn lemma_wf(self)
        requires
            self.wf(),
        ensures
            forall|p: Path| #[trigger] self.prefixes().contains_key(p) ==> self.record_ok(p),
            forall|n: Path| #[trigger] self.nodes().contains_key(n) ==> self.nodes()[n].wf(),
            self.ids_ok(),
            self.node_ids().len() <= usize::MAX,
            self.prefix_ids().len() <= usize::MAX,
            self.default_route_serial() == if self.prefixes().contains_key(Path::root()) {
                self.prefixes()[Path::root()].serial
            } else {
                0
            },
    {
        assert(self.node_ids@.len() == self.node_ids.len());
        assert(self.prefix_ids@.len() == self.prefix_ids.len());
    }

    /// A storage with the root node and no prefix.
    pub fn init(strides: Vec<u8>) -> (r: Self)
        requires
            valid_strides(strides@, AF::width()),
            strides@.len() > 0,
        ensures
            r.wf(),
            r.strides() == strides@,
            r.prefixes() == Map::<Path, StoredPrefix<AF, M>>::empty(),
            r.nodes() == Map::<Path, TreeBitMapNode>::empty().insert(
                Path::root(),
                TreeBitMapNode::empty(strides@[0]),
            ),
            r.prefix_ids().len() == 0,
            r.node_ids().len() == 1,
            r.node_ids()[0].len == 0,
    {
        let mut nodes: Buckets<TreeBitMapNode> = Buckets::new(AF::bits());
        let prefixes: Buckets<StoredPrefix<AF, M>> = Buckets::new(AF::bits());
        let root = TreeBitMapNode::new(strides[0]);
        nodes.insert(0, 0, root);
        let mut node_ids: Vec<StrideNodeId<AF>> = Vec::new();
        let root_id = StrideNodeId::root();
        proof {
            lemma_node_paths_of_push(node_ids@, root_id);
            assert(node_paths_of(node_ids@) =~= Seq::<Path>::empty());
        }
        node_ids.push(root_id);
        let prefix_ids: Vec<PrefixId<AF>> = Vec::new();
        let r = InMemStorage {
            nodes,
            prefixes,
            node_ids,
            prefix_ids,
            default_route_prefix_serial: 0,
            strides,
        };
        proof {
            let ns = node_paths_of(r.node_ids@);
            assert(ns =~= seq![Path::root()]);
            assert(ns[0] == Path::root());
            assert(paths_of(r.prefix_ids@) =~= Seq::<Path>::empty());
        }
        r
    }

    /// The identifier of the root node.
    pub fn get_root_node_id(&self) -> (r: StrideNodeId<AF>)
        ensures
            r.wf(),
            r@ == Path::root(),
    {
        StrideNodeId::root()
    }

    /// The identifier of the node that `sub_prefix` leads to.
    pub fn acquire_new_node_id(&self, sub_prefix: (AF, u8)) -> (r: StrideNodeId<AF>)
        requires
            sub_prefix.1 <= AF::width(),
        ensures
            r.wf(),
            r@ == crate::node_id::path_of(
                sub_prefix.0.as_nat(),
                AF::width(),
                sub_prefix.1 as nat,
            ),
    {
        StrideNodeId::new_with_cleaned_id(sub_prefix.0, sub_prefix.1)
    }

    /// The strides of the levels of the trie.
    pub fn get_stride_sizes(&self) -> (r: &Vec<u8>)
        ensures
            r@ == self.strides(),
    {
        &self.strides
    }

    /// The number of times that the default route was published.
    pub fn load_default_route_prefix_serial(&self) -> (r: usize)
        ensures
            r == self.default_route_serial(),
    {
        self.default_route_prefix_serial
    }

    /// The number of prefixes in the storage.
    pub fn get_prefixes_len(&self) -> (r: usize)
        requires
            self.wf(),
        ensures
            r == self.prefixes().dom().len(),
            self.prefixes().dom().finite(),
    {
        proof {
            let paths = paths_of(self.prefix_ids@);
            paths.unique_seq_to_set();
            assert(paths.to_set() =~= self.prefixes().dom());
        }
        self.prefix_ids.len()
    }

    /// The number of nodes in the storage.
    pub fn get_nodes_len(&self) -> (r: usize)
        requires
            self.wf(),
        ensures
            r == self.nodes().dom().len(),
            self.nodes().dom().finite(),
    {
        proof {
            let paths = node_paths_of(self.node_ids@);
            paths.unique_seq_to_set();
            assert(paths.to_set() =~= self.nodes().dom());
        }
        self.node_ids.len()
    }

    /// The identifiers of the prefixes in the storage, in the order in which
    /// they were first published.
    pub fn get_prefix_ids(&self) -> (r: &Vec<PrefixId<AF>>)
        ensures
            r@ == self.prefix_ids(),
    {
        &self.prefix_ids
    }

    /// The identifiers of the nodes in the storage, in the order in which
    /// they were published.
    pub fn get_node_ids(&self) -> (r: &Vec<StrideNodeId<AF>>)
        ensures
            r@ == self.node_ids(),
    {
        &self.node_ids
    }

    /// The node with the identifier `id`, if it is in the storage.
    pub fn retrieve_node(&self, id: StrideNodeId<AF>) -> (r: Option<&TreeBitMapNode>)
        requires
            self.wf(),
            id.wf(),
        ensures
            match r {
                Some(node) => self.nodes().contains_key(id@) && *node == self.nodes()[id@]
                    && node.wf(),
                None => !self.nodes().contains_key(id@),
            },
    {
        proof {
            id.lemma_view_wf();
        }
        self.nodes.get(id.len, id.path_value())
    }

    /// The node with the identifier `id`, if it is in the storage, for a
    /// reader that has pinned the epoch: the node can be used for as long
    /// as the guard is held.
    pub fn retrieve_node_with_guard<'a>(&'a self, id: StrideNodeId<AF>, guard: &'a Guard) -> (r:
        Option<&'a TreeBitMapNode>)
        requires
            self.wf(),
            id.wf(),
        ensures
            match r {
                Some(node) => self.nodes().contains_key(id@) && *node == self.nodes()[id@]
                    && node.wf(),
                None => !self.nodes().contains_key(id@),
            },
    {
        self.retrieve_node(id)
    }

    /// Publishes `next_node` under `id`, unless a node is published there:
    /// that node stays. Returns the identifier of the node that is there.
    pub fn store_node(&mut self, id: StrideNodeId<AF>, next_node: TreeBitMapNode) -> (r: Option<
        StrideNodeId<AF>,
    >)
        requires
            old(self).wf(),
            id.wf(),
            next_node.wf(),
        ensures
            final(self).wf(),
            r == Some(id),
            final(self).prefixes() == old(self).prefixes(),
            final(self).prefix_ids() == old(self).prefix_ids(),
            final(self).node_ids() == if old(self).nodes().contains_key(id@) {
                old(self).node_ids()
            } else {
                old(self).node_ids().push(id)
            },
            final(self).strides() == old(self).strides(),
            final(self).default_route_serial() == old(self).default_route_serial(),
            final(self).nodes() == if old(self).nodes().contains_key(id@) {
                old(self).nodes()
            } else {
                old(self).nodes().insert(id@, next_node)
            },
    {
        proof {
            id.lemma_view_wf();
        }
        let value = id.path_value();
        if !self.nodes.contains(id.len, value) {
            self.nodes.insert(id.len, value, next_node);
            proof {
                let before = node_paths_of(self.node_ids@);
                lemma_node_paths_of_push(self.node_ids@, id);
                lemma_push_fresh(before, id@);
            }
            self.node_ids.push(id);
        }
        Some(id)
    }

    /// Puts `updated_node` in the place of the node published under
    /// `current_node_id`.
    pub fn update_node(&mut self, current_node_id: StrideNodeId<AF>, updated_node: TreeBitMapNode)
        requires
            old(self).wf(),
            current_node_id.wf(),
            updated_node.wf(),
            old(self).nodes().contains_key(current_node_id@),
        ensures
            final(self).wf(),
            final(self).prefixes() == old(self).prefixes(),
            final(self).prefix_ids() == old(self).prefix_ids(),
            final(self).node_ids() == old(self).node_ids(),
            final(self).strides() == old(self).strides(),
            final(self).default_route_serial() == old(self).default_route_serial(),
            final(self).nodes() == old(self).nodes().insert(current_node_id@, updated_node),
    {
        proof {
            current_node_id.lemma_view_wf();
        }
        let value = current_node_id.path_value();
        self.nodes.insert(current_node_id.len, value, updated_node);
    }

    /// The record published under `id` and its serial number, if there is
    /// one.
    pub fn retrieve_prefix(&self, id: PrefixId<AF>) -> (r: Option<&StoredPrefix<AF, M>>)
        requires
            self.wf(),
            id.wf(),
        ensures
            match r {
                Some(stored) => self.prefixes().contains_key(id@) && *stored == self.prefixes()[id@]
                    && stored.record.id() == id,
                None => !self.prefixes().contains_key(id@),
            },
    {
        proof {
            id.lemma_view_wf();
        }
        let r = self.prefixes.get(id.len, id.path_value());
        proof {
            if let Some(stored) = r {
                assert(self.record_ok(id@));
                stored.record.id().lemma_view_injective(id);
            }
        }
        r
    }

    /// The record published under `id` and its serial number, if there is
    /// one, for a reader that has pinned the epoch: they can be used for as
    /// long as the guard is held.
    pub fn retrieve_prefix_with_guard<'a>(&'a self, id: PrefixId<AF>, guard: &'a Guard) -> (r:
        Option<(&'a InternalPrefixRecord<AF, M>, &'a usize)>)
        requires
            self.wf(),
            id.wf(),
        ensures
            match r {
                Some(found) => self.prefixes().contains_key(id@) && *found.0
                    == self.prefixes()[id@].record && *found.1 == self.prefixes()[id@].serial
                    && found.0.id() == id,
                None => !self.prefixes().contains_key(id@),
            },
    {
        match self.retrieve_prefix(id) {
            Some(stored) => Some((&stored.record, &stored.serial)),
            None => None,
        }
    }

    /// Publishes a record under the identifier of its prefix, which is free
    /// or taken as `serial` says, with the metadata that `merged` gives.
    ///
    /// Where the identifier is free, the record is published as it comes,
    /// with the serial number one. Where it is taken, `merged` is what the
    /// merge of the metadata that comes into the metadata that is there
    /// gave: if it gave metadata, a record with that metadata takes the
    /// place of the one that is there, with the next serial number; if it
    /// failed, nothing is published and the failure is handed on.
    pub fn publish(
        &mut self,
        record: InternalPrefixRecord<AF, M>,
        serial: usize,
        merged: Option<Result<(M, M::UserDataOut), PrefixStoreError>>,
    ) -> (r: Result<(), PrefixStoreError>)
        requires
            old(self).wf(),
            record.id().wf(),
            serial == old(self).serial_of(record.id()@),
            (serial == 0) == merged.is_none(),
        ensures
            final(self).wf(),
            final(self).nodes() == old(self).nodes(),
            final(self).node_ids() == old(self).node_ids(),
            final(self).strides() == old(self).strides(),
            final(self).prefix_ids() == if merged.is_none() {
                old(self).prefix_ids().push(record.id())
            } else {
                old(self).prefix_ids()
            },
            r == match merged {
                Some(Err(e)) => Err::<(), PrefixStoreError>(e),
                _ => Ok::<(), PrefixStoreError>(()),
            },
            final(self).prefixes() == match merged {
                None => old(self).prefixes().insert(
                    record.id()@,
                    stored(record.net, record.len, record.meta, 1),
                ),
                Some(Ok(pair)) => old(self).prefixes().insert(
                    record.id()@,
                    stored(record.net, record.len, pair.0, next_serial(serial)),
                ),
                Some(Err(_)) => old(self).prefixes(),
            },
    {
        let id = record.get_prefix_id();
        proof {
            id.lemma_view_wf();
            vstd::arithmetic::power2::lemma2_to64();
        }
        let value = id.path_value();
        match merged {
            None => {
                let len = record.len;
                self.prefixes.insert(len, value, StoredPrefix { record, serial: 1 });
                if len == 0 {
                    self.default_route_prefix_serial = 1;
                }
                proof {
                    let before = paths_of(self.prefix_ids@);
                    lemma_paths_of_push(self.prefix_ids@, id);
                    lemma_push_fresh(before, id@);
                }
                self.prefix_ids.push(id);
                proof {
                    assert forall|p: Path| #[trigger]
                        self.prefixes@.contains_key(p) implies self.record_ok(p) by {
                        if p != id@ {
                            assert(old(self).record_ok(p));
                        }
                    }
                }
                Ok(())
            },
            Some(Ok((meta, _))) => {
                let new_serial = if serial < usize::MAX {
                    serial + 1
                } else {
                    serial
                };
                let len = record.len;
                let new_record = InternalPrefixRecord::new_with_meta(record.net, len, meta);
                self.prefixes.insert(
                    len,
                    value,
                    StoredPrefix { record: new_record, serial: new_serial },
                );
                if len == 0 {
                    self.default_route_prefix_serial = new_serial;
                }
                proof {
                    assert forall|p: Path| #[trigger]
                        self.prefixes@.contains_key(p) implies self.record_ok(p) by {
                        if p != id@ {
                            assert(old(self).record_ok(p));
                        } else {
                            assert(old(self).record_ok(p));
                        }
                    }
                }
                Ok(())
            },
            Some(Err(e)) => Err(e),
        }
    }

    /// Publishes a record: as it comes if its prefix is not in the storage,
    /// and else merged into the record that is there.
    ///
    /// The merge is the metadata's own. If it fails, the storage is left as
    /// it is and the failure is returned.
    pub fn upsert_prefix(&mut self, record: InternalPrefixRecord<AF, M>, user_data: &M::UserDataIn) -> (r:
        Result<(), PrefixStoreError>)
        requires
            old(self).wf(),
            record.id().wf(),
        ensures
            final(self).wf(),
            final(self).nodes() == old(self).nodes(),
            final(self).node_ids() == old(self).node_ids(),
            final(self).strides() == old(self).strides(),
            final(self).prefix_ids() == if old(self).prefixes().contains_key(record.id()@) {
                old(self).prefix_ids()
            } else {
                old(self).prefix_ids().push(record.id())
            },
            !old(self).prefixes().contains_key(record.id()@) ==> r.is_ok() && final(self).prefixes()
                == old(self).prefixes().insert(
                record.id()@,
                stored(record.net, record.len, record.meta, 1),
            ),
            old(self).prefixes().contains_key(record.id()@) ==> match r {
                Ok(_) => final(self).prefixes() == old(self).prefixes().insert(
                    record.id()@,
                    stored(
                        record.net,
                        record.len,
                        old(self).prefixes()[record.id()@].record.meta.merged(
                            record.meta,
                            *user_data,
                        ),
                        next_serial(old(self).prefixes()[record.id()@].serial),
                    ),
                ),
                Err(_) => final(self).prefixes() == old(self).prefixes(),
            },
    {
        let id = record.get_prefix_id();
        let mut retry_count: u8 = 0;
        loop
            invariant
                self.wf(),
                *self == *old(self),
                id == record.id(),
                id.wf(),
                retry_count < RETRY_LIMIT,
            decreases RETRY_LIMIT - retry_count,
        {
            // Read the slot, and merge into what it holds.
            let (serial, merged) = match self.retrieve_prefix(id) {
                None => (0, None),
                Some(stored) => (
                    stored.serial,
                    Some(stored.record.meta.clone_merge_update(&record.meta, user_data)),
                ),
            };
            proof {
                if self.prefixes().contains_key(id@) {
                    assert(self.record_ok(id@));
                }
            }
            // Publish if the slot is still what was read, and read it
            // again if it is not.
            match self.compare_exchange_serial(id, serial) {
                Ok(_) => {
                    return self.publish(record, serial, merged);
                },
                Err(_) => {
                    retry_count = retry_count + 1;
                    if retry_count >= RETRY_LIMIT {
                        return Err(PrefixStoreError::NodeCreationMaxRetryError);
                    }
                },
            }
        }
    }

    /// Whether the slot of `id` has the serial number `current`: the
    /// number itself if it has, and the number that the slot has if not. An
    /// empty slot has the number zero.
    pub fn compare_exchange_serial(&self, id: PrefixId<AF>, current: usize) -> (r: Result<
        usize,
        usize,
    >)
        requires
            self.wf(),
            id.wf(),
        ensures
            r == if self.serial_of(id@) == current {
                Ok::<usize, usize>(current)
            } else {
                Err::<usize, usize>(self.serial_of(id@))
            },
    {
        let actual = match self.retrieve_prefix(id) {
            None => 0,
            Some(stored) => stored.serial,
        };
        if actual == current {
            Ok(current)
        } else {
            Err(actual)
        }
    }
}

/// The number of times that a publication is tried before it is given up.
pub const RETRY_LIMIT: u8 = 8;


/// A sequence without duplicates stays one when something new is added.
pub proof fn lemma_push_fresh(s: Seq<Path>, x: Path)
    requires
        s.no_duplicates(),
        !s.contains(x),
    ensures
        s.push(x).no_duplicates(),
        forall|p: Path| #[trigger] s.push(x).contains(p) <==> s.contains(p) || p == x,
{
    let t = s.push(x);
    assert forall|p: Path| #[trigger] t.contains(p) <==> s.contains(p) || p == x by {
        if s.contains(p) {
            let i = choose|i: int| 0 <= i < s.len() && s[i] == p;
            assert(t[i] == p);
        }
        if p == x {
            assert(t[s.len() as int] == x);
        }
    }
    assert forall|i: int, j: int| 0 <= i < t.len() && 0 <= j < t.len() && i != j implies t[i]
        != t[j] by {
        if i < s.len() && j < s.len() {
        } else if i < s.len() {
            assert(s.contains(s[i]));
        } else if j < s.len() {
            assert(s.contains(s[j]));
        }
    }
}

} // verus!
