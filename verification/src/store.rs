//! What a query returns.

use vstd::prelude::*;
use crossbeam_epoch::Guard;
use crate::af::AddressFamily;
use crate::errors::PrefixStoreError;
use crate::node_id::{PrefixId, paths_of};
use crate::options::{MatchOptions, MatchType};
use crate::path::Path;
use crate::prefix_record::{InternalPrefixRecord, MergeUpdate, RecordSet, record_paths, records_of};
use crate::stats::Stats;
use crate::tree::TreeBitMap;

verus! {

/// The answer to a query.
pub struct QueryResult<'a, AF: AddressFamily, M: MergeUpdate> {
    /// The kind of match that was found.
    pub match_type: MatchType,
    /// The prefix that matched, if one did.
    pub prefix: Option<PrefixId<AF>>,
    /// The metadata of the prefix that matched.
    pub prefix_meta: Option<&'a M>,
    /// The prefixes that cover the search prefix, if they were asked for.
    pub less_specifics: Option<RecordSet<'a, AF, M>>,
    /// The prefixes below the search prefix, if they were asked for.
    pub more_specifics: Option<RecordSet<'a, AF, M>>,
}

impl<'a, AF: AddressFamily, M: MergeUpdate> QueryResult<'a, AF, M> {
    /// The path of the prefix that matched, if one did.
    pub open spec fn prefix_path(self) -> Option<Path> {
        match self.prefix {
            Some(p) => Some(p@),
            None => None,
        }
    }

    /// The prefix that matched is well formed and in the store `view`, the
    /// metadata is the metadata that it has there, and the kind of match
    /// says how the prefix compares with the search prefix `q`.
    pub open spec fn matches_store(self, view: Map<Path, M>, q: Path) -> bool {
        match self.prefix {
            Some(p) => {
                &&& p.wf()
                &&& view.contains_key(p@)
                &&& self.prefix_meta matches Some(meta) && *meta == view[p@]
                &&& self.match_type == if p@.len == q.len {
                    MatchType::ExactMatch
                } else {
                    MatchType::LongestMatch
                }
            },
            None => self.prefix_meta.is_none() && self.match_type == MatchType::EmptyMatch,
        }
    }
}

/// The strides of the two tries of a store for both address families.
pub struct Strides<'a> {
    pub v4: &'a Vec<u8>,
    pub v6: &'a Vec<u8>,
}

/// A prefix of either address family.
#[derive(Clone, Copy, Debug, PartialEq, Eq)]
pub enum Prefix {
    /// A prefix of 32-bit addresses.
    V4(PrefixId<u32>),
    /// A prefix of 128-bit addresses.
    V6(PrefixId<u128>),
}

impl Prefix {
    /// The identifier of the prefix is well formed.
    pub open spec fn wf(self) -> bool {
        match self {
            Prefix::V4(id) => id.wf(),
            Prefix::V6(id) => id.wf(),
        }
    }

    /// Whether the prefix is well formed.
    pub fn is_valid(&self) -> (r: bool)
        ensures
            r == self.wf(),
    {
        match self {
            Prefix::V4(id) => id.is_valid(),
            Prefix::V6(id) => id.is_valid(),
        }
    }

    /// Whether the prefix is one of 32-bit addresses.
    pub fn is_v4(&self) -> (r: bool)
        ensures
            r == (*self is V4),
    {
        match self {
            Prefix::V4(_) => true,
            Prefix::V6(_) => false,
        }
    }

    /// The length of the prefix.
    pub fn len(&self) -> (r: u8)
        ensures
            r == match *self {
                Prefix::V4(id) => id.len,
                Prefix::V6(id) => id.len,
            },
    {
        match self {
            Prefix::V4(id) => id.len,
            Prefix::V6(id) => id.len,
        }
    }
}

/// The answer to a query, from the trie of the address family of the
/// search prefix.
pub enum FamilyResult<'a, M: MergeUpdate> {
    /// The answer for a prefix of 32-bit addresses.
    V4(QueryResult<'a, u32, M>),
    /// The answer for a prefix of 128-bit addresses.
    V6(QueryResult<'a, u128, M>),
}

/// A prefix of either address family with its metadata.
pub struct SinglePrefixRoute<'a, M: MergeUpdate> {
    pub prefix: Prefix,
    pub meta: &'a M,
}

/// The record of a prefix of 32-bit addresses, as one of a prefix of either
/// family.
pub open spec fn route_v4<'a, M: MergeUpdate>(
    record: crate::prefix_record::PublicPrefixRecord<'a, u32, M>,
) -> SinglePrefixRoute<'a, M> {
    SinglePrefixRoute { prefix: Prefix::V4(record.prefix), meta: record.meta }
}

/// The record of a prefix of 128-bit addresses, as one of a prefix of
/// either family.
pub open spec fn route_v6<'a, M: MergeUpdate>(
    record: crate::prefix_record::PublicPrefixRecord<'a, u128, M>,
) -> SinglePrefixRoute<'a, M> {
    SinglePrefixRoute { prefix: Prefix::V6(record.prefix), meta: record.meta }
}

/// A walk over the records of all the prefixes of a store: first those of
/// 32-bit addresses, then those of 128-bit addresses. The walk can be taken
/// from either end.
pub struct PrefixInfoUnitIter<'a, M: MergeUpdate> {
    v4: RecordSet<'a, u32, M>,
    v4_front: usize,
    v4_back: usize,
    v6: RecordSet<'a, u128, M>,
    v6_front: usize,
    v6_back: usize,
}

impl<'a, M: MergeUpdate> PrefixInfoUnitIter<'a, M> {
    /// The places that the walk is at lie within the records.
    pub closed spec fn wf(self) -> bool {
        &&& self.v4_front <= self.v4_back <= self.v4@.len()
        &&& self.v6_front <= self.v6_back <= self.v6@.len()
    }

    /// The records of 32-bit prefixes that are left.
    pub closed spec fn remaining_v4(self) -> Seq<crate::prefix_record::PublicPrefixRecord<'a, u32, M>> {
        self.v4@.subrange(self.v4_front as int, self.v4_back as int)
    }

    /// The records of 128-bit prefixes that are left.
    pub closed spec fn remaining_v6(self) -> Seq<
        crate::prefix_record::PublicPrefixRecord<'a, u128, M>,
    > {
        self.v6@.subrange(self.v6_front as int, self.v6_back as int)
    }

    /// The next record from the front: one of a 32-bit prefix as long as
    /// there is one left, then one of a 128-bit prefix.
    pub fn next(&mut self) -> (r: Option<SinglePrefixRoute<'a, M>>)
        requires
            old(self).wf(),
        ensures
            final(self).wf(),
            if old(self).remaining_v4().len() > 0 {
                &&& r == Some(route_v4(old(self).remaining_v4().first()))
                &&& final(self).remaining_v4() == old(self).remaining_v4().drop_first()
                &&& final(self).remaining_v6() == old(self).remaining_v6()
            } else if old(self).remaining_v6().len() > 0 {
                &&& r == Some(route_v6(old(self).remaining_v6().first()))
                &&& final(self).remaining_v4() == old(self).remaining_v4()
                &&& final(self).remaining_v6() == old(self).remaining_v6().drop_first()
            } else {
                &&& r.is_none()
                &&& final(self).remaining_v4() == old(self).remaining_v4()
                &&& final(self).remaining_v6() == old(self).remaining_v6()
            },
    {
        if self.v4_front < self.v4_back {
            let record = self.v4.index(self.v4_front);
            let route = SinglePrefixRoute { prefix: Prefix::V4(record.prefix), meta: record.meta };
            self.v4_front = self.v4_front + 1;
            proof {
                assert(self.remaining_v4() =~= old(self).remaining_v4().drop_first());
            }
            return Some(route);
        }
        if self.v6_front < self.v6_back {
            let record = self.v6.index(self.v6_front);
            let route = SinglePrefixRoute { prefix: Prefix::V6(record.prefix), meta: record.meta };
            self.v6_front = self.v6_front + 1;
            proof {
                assert(self.remaining_v6() =~= old(self).remaining_v6().drop_first());
            }
            return Some(route);
        }
        None
    }

    /// The next record from the back: the last one of a 32-bit prefix as
    /// long as there is one left, then the last one of a 128-bit prefix.
    pub fn next_back(&mut self) -> (r: Option<SinglePrefixRoute<'a, M>>)
        requires
            old(self).wf(),
        ensures
            final(self).wf(),
            if old(self).remaining_v4().len() > 0 {
                &&& r == Some(route_v4(old(self).remaining_v4().last()))
                &&& final(self).remaining_v4() == old(self).remaining_v4().drop_last()
                &&& final(self).remaining_v6() == old(self).remaining_v6()
            } else if old(self).remaining_v6().len() > 0 {
                &&& r == Some(route_v6(old(self).remaining_v6().last()))
                &&& final(self).remaining_v4() == old(self).remaining_v4()
                &&& final(self).remaining_v6() == old(self).remaining_v6().drop_last()
            } else {
                &&& r.is_none()
                &&& final(self).remaining_v4() == old(self).remaining_v4()
                &&& final(self).remaining_v6() == old(self).remaining_v6()
            },
    {
        if self.v4_front < self.v4_back {
            self.v4_back = self.v4_back - 1;
            let record = self.v4.index(self.v4_back);
            let route = SinglePrefixRoute { prefix: Prefix::V4(record.prefix), meta: record.meta };
            proof {
                assert(self.remaining_v4() =~= old(self).remaining_v4().drop_last());
            }
            return Some(route);
        }
        if self.v6_front < self.v6_back {
            self.v6_back = self.v6_back - 1;
            let record = self.v6.index(self.v6_back);
            let route = SinglePrefixRoute { prefix: Prefix::V6(record.prefix), meta: record.meta };
            proof {
                assert(self.remaining_v6() =~= old(self).remaining_v6().drop_last());
            }
            return Some(route);
        }
        None
    }
}

/// A store of the prefixes of both address families: a trie for each.
pub struct Store<M: MergeUpdate> {
    pub v4: TreeBitMap<u32, M>,
    pub v6: TreeBitMap<u128, M>,
}

impl<M: MergeUpdate> Store<M> {
    /// Both tries are well formed.
    pub open spec fn wf(self) -> bool {
        self.v4.wf() && self.v6.wf()
    }

    /// An empty store with the given strides for the two tries. A store
    /// with strides that a trie cannot have cannot be made ready.
    pub fn new(v4_strides: Vec<u8>, v6_strides: Vec<u8>) -> (r: Result<Self, PrefixStoreError>)
        ensures
            r.is_ok() == (crate::levels::valid_strides(v4_strides@, 32)
                && crate::levels::valid_strides(v6_strides@, 128)),
            r matches Ok(store) ==> store.wf() && store.v4@ == Map::<Path, M>::empty() && store.v6@
                == Map::<Path, M>::empty() && store.v4.strides() == v4_strides@
                && store.v6.strides() == v6_strides@,
            r matches Err(e) ==> e == PrefixStoreError::StoreNotReadyError,
    {
        let v4 = TreeBitMap::<u32, M>::new(v4_strides);
        let v6 = TreeBitMap::<u128, M>::new(v6_strides);
        match v4 {
            Ok(v4) => match v6 {
                Ok(v6) => Ok(Store { v4, v6 }),
                Err(e) => Err(e),
            },
            Err(e) => Err(e),
        }
    }

    /// Puts a prefix in the trie of its address family, as an insertion
    /// into that trie does, and leaves the other trie as it is.
    pub fn insert(&mut self, prefix: &Prefix, meta: M, user_data: &M::UserDataIn) -> (r: Result<
        (),
        PrefixStoreError,
    >)
        requires
            old(self).wf(),
            prefix.wf(),
        ensures
            final(self).wf(),
            match *prefix {
                Prefix::V4(id) => final(self).v6 == old(self).v6 && old(self).v4.inserted(
                    final(self).v4,
                    crate::prefix_record::record(id.net, id.len, meta),
                    *user_data,
                    r,
                ),
                Prefix::V6(id) => final(self).v4 == old(self).v4 && old(self).v6.inserted(
                    final(self).v6,
                    crate::prefix_record::record(id.net, id.len, meta),
                    *user_data,
                    r,
                ),
            },
    {
        match prefix {
            Prefix::V4(id) => self.v4.insert(
                InternalPrefixRecord::new_with_meta(id.net, id.len, meta),
                user_data,
            ),
            Prefix::V6(id) => self.v6.insert(
                InternalPrefixRecord::new_with_meta(id.net, id.len, meta),
                user_data,
            ),
        }
    }

    /// Looks a prefix up by a walk down the trie of its address family.
    pub fn match_prefix<'a>(&'a self, search_pfx: &Prefix, options: &MatchOptions, guard: &'a Guard) -> (r:
        FamilyResult<'a, M>)
        requires
            self.wf(),
            search_pfx.wf(),
        ensures
            match *search_pfx {
                Prefix::V4(id) => r matches FamilyResult::V4(answer) && self.v4.walk_answer(
                    id,
                    *options,
                    answer,
                ),
                Prefix::V6(id) => r matches FamilyResult::V6(answer) && self.v6.walk_answer(
                    id,
                    *options,
                    answer,
                ),
            },
    {
        match search_pfx {
            Prefix::V4(id) => FamilyResult::V4(
                self.v4.match_prefix_by_tree_traversal(*id, options, guard),
            ),
            Prefix::V6(id) => FamilyResult::V6(
                self.v6.match_prefix_by_tree_traversal(*id, options, guard),
            ),
        }
    }

    /// The prefix with its metadata, if it is in the store, and the
    /// prefixes in the store below it.
    pub fn more_specifics_from<'a>(&'a self, prefix: &Prefix, guard: &'a Guard) -> (r: FamilyResult<
        'a,
        M,
    >)
        requires
            self.wf(),
            prefix.wf(),
        ensures
            match *prefix {
                Prefix::V4(id) => r matches FamilyResult::V4(answer)
                    && self.v4.more_specifics_answer(id, answer),
                Prefix::V6(id) => r matches FamilyResult::V6(answer)
                    && self.v6.more_specifics_answer(id, answer),
            },
    {
        match prefix {
            Prefix::V4(id) => FamilyResult::V4(self.v4.more_specifics_from(*id, guard)),
            Prefix::V6(id) => FamilyResult::V6(self.v6.more_specifics_from(*id, guard)),
        }
    }

    /// The prefix with its metadata, if it is in the store, and the
    /// prefixes in the store that cover it and are shorter.
    pub fn less_specifics_from<'a>(&'a self, prefix: &Prefix, guard: &'a Guard) -> (r: FamilyResult<
        'a,
        M,
    >)
        requires
            self.wf(),
            prefix.wf(),
        ensures
            match *prefix {
                Prefix::V4(id) => r matches FamilyResult::V4(answer)
                    && self.v4.less_specifics_answer(id, answer),
                Prefix::V6(id) => r matches FamilyResult::V6(answer)
                    && self.v6.less_specifics_answer(id, answer),
            },
    {
        match prefix {
            Prefix::V4(id) => FamilyResult::V4(self.v4.less_specifics_from(*id, guard)),
            Prefix::V6(id) => FamilyResult::V6(self.v6.less_specifics_from(*id, guard)),
        }
    }

    /// A walk over the records of all the prefixes in the store: each
    /// prefix of the store has one record among those of its family, with
    /// its metadata, and none is left out.
    pub fn prefixes_iter<'a>(&'a self) -> (r: PrefixInfoUnitIter<'a, M>)
        requires
            self.wf(),
        ensures
            r.wf(),
            records_of(r.remaining_v4(), paths_of(self.v4.store.prefix_ids()), self.v4@),
            records_of(r.remaining_v6(), paths_of(self.v6.store.prefix_ids()), self.v6@),
            record_paths(r.remaining_v4()).no_duplicates(),
            forall|p: Path| #[trigger]
                record_paths(r.remaining_v4()).contains(p) <==> self.v4@.contains_key(p),
            record_paths(r.remaining_v6()).no_duplicates(),
            forall|p: Path| #[trigger]
                record_paths(r.remaining_v6()).contains(p) <==> self.v6@.contains_key(p),
    {
        let v4 = self.v4.prefixes_iter();
        let v6 = self.v6.prefixes_iter();
        let v4_back = v4.len();
        let v6_back = v6.len();
        let r = PrefixInfoUnitIter { v4, v4_front: 0, v4_back, v6, v6_front: 0, v6_back };
        proof {
            assert(r.remaining_v4() =~= r.v4@);
            assert(r.remaining_v6() =~= r.v6@);
        }
        r
    }

    /// The number of prefixes in the store, or the greatest number that
    /// can be given if there are more.
    pub fn prefixes_len(&self) -> (r: usize)
        requires
            self.wf(),
        ensures
            r == if self.v4@.dom().len() + self.v6@.dom().len() <= usize::MAX {
                self.v4@.dom().len() + self.v6@.dom().len()
            } else {
                usize::MAX as nat
            },
    {
        self.v4.prefixes_len().saturating_add(self.v6.prefixes_len())
    }

    /// The number of nodes in the store, or the greatest number that can be
    /// given if there are more.
    pub fn nodes_len(&self) -> (r: usize)
        requires
            self.wf(),
        ensures
            r == if self.v4.store.nodes().dom().len() + self.v6.store.nodes().dom().len()
                <= usize::MAX {
                self.v4.store.nodes().dom().len() + self.v6.store.nodes().dom().len()
            } else {
                usize::MAX as nat
            },
    {
        self.v4.nodes_len().saturating_add(self.v6.nodes_len())
    }

    /// The number of nodes at each level of the two tries.
    pub fn nodes_per_stride(&self) -> (r: (Vec<u32>, Vec<u32>))
        requires
            self.wf(),
        ensures
            r.0@.len() == self.v4.strides().len(),
            r.1@.len() == self.v6.strides().len(),
            forall|i: int|
                0 <= i < r.0@.len() ==> #[trigger] r.0@[i] as nat == crate::direct::capped(
                    crate::stats::count_of_len(
                        self.v4.store.node_ids(),
                        crate::levels::stride_start(self.v4.strides(), i as nat),
                    ),
                ),
            forall|i: int|
                0 <= i < r.1@.len() ==> #[trigger] r.1@[i] as nat == crate::direct::capped(
                    crate::stats::count_of_len(
                        self.v6.store.node_ids(),
                        crate::levels::stride_start(self.v6.strides(), i as nat),
                    ),
                ),
    {
        (self.v4.nodes_per_stride(), self.v6.nodes_per_stride())
    }

    /// The counters of the two tries.
    pub fn stats<'a>(&'a self) -> (r: Stats<'a>)
        ensures
            r.v4@ == self.v4.stats@,
            r.v6@ == self.v6.stats@,
    {
        Stats { v4: &self.v4.stats, v6: &self.v6.stats }
    }

    /// The strides of the two tries.
    pub fn strides<'a>(&'a self) -> (r: Strides<'a>)
        ensures
            r.v4@ == self.v4.strides(),
            r.v6@ == self.v6.strides(),
    {
        Strides { v4: self.v4.store.get_stride_sizes(), v6: self.v6.store.get_stride_sizes() }
    }
}

} // verus!
