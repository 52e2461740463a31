//! The records that the store keeps, and what it asks of their metadata.

use vstd::prelude::*;
use crate::af::AddressFamily;
use crate::errors::PrefixStoreError;
use crate::node_id::PrefixId;
use crate::path::Path;

verus! {

/// Metadata that can take in an update.
///
/// When a prefix that is in the store is inserted again, the metadata that
/// the store has is merged with the metadata that comes. What the merge
/// gives is for the type to say, with `merged`; replaying one update must
/// change nothing.
pub trait MergeUpdate: Sized {
    /// What the caller of an insertion hands to the merge.
    type UserDataIn;

    /// What the merge hands back besides the merged metadata.
    type UserDataOut;

    /// The metadata that merging `update` into `self` gives.
    spec fn merged(self, update: Self, user_data: Self::UserDataIn) -> Self;

    /// Merging the same update a second time changes nothing.
    proof fn lemma_merge_idempotent(self, update: Self, user_data: Self::UserDataIn)
        ensures
            self.merged(update, user_data).merged(update, user_data) == self.merged(
                update,
                user_data,
            ),
    ;

    /// Merges `update_record` into this metadata.
    fn merge_update(&mut self, update_record: Self, user_data: Self::UserDataIn) -> (r: Result<
        (),
        PrefixStoreError,
    >)
        ensures
            r.is_ok() ==> *final(self) == old(self).merged(update_record, user_data),
    ;

    /// The metadata that merging `update_meta` into this metadata gives,
    /// as a value of its own.
    fn clone_merge_update(&self, update_meta: &Self, user_data: &Self::UserDataIn) -> (r: Result<
        (Self, Self::UserDataOut),
        PrefixStoreError,
    >)
        ensures
            r matches Ok(pair) ==> pair.0 == self.merged(*update_meta, *user_data),
    ;
}

/// A prefix with its metadata, as the store keeps it.
pub struct InternalPrefixRecord<AF: AddressFamily, M: MergeUpdate> {
    pub net: AF,
    pub len: u8,
    pub meta: M,
}

/// The record of the prefix with the bits `net` and the length `len`, with
/// the metadata `meta`.
pub open spec fn record<AF: AddressFamily, M: MergeUpdate>(
    net: AF,
    len: u8,
    meta: M,
) -> InternalPrefixRecord<AF, M> {
    InternalPrefixRecord { net, len, meta }
}

impl<AF: AddressFamily, M: MergeUpdate> InternalPrefixRecord<AF, M> {
    /// The identifier of the prefix of the record.
    pub open spec fn id(self) -> PrefixId<AF> {
        PrefixId { net: self.net, len: self.len }
    }

    /// The record of the prefix with these bits and this length.
    pub fn new_with_meta(net: AF, len: u8, meta: M) -> (r: Self)
        ensures
            r == record(net, len, meta),
    {
        InternalPrefixRecord { net, len, meta }
    }

    /// The identifier of the prefix of the record.
    pub fn get_prefix_id(&self) -> (r: PrefixId<AF>)
        ensures
            r == self.id(),
    {
        PrefixId::new(self.net, self.len)
    }

    /// The metadata of the record.
    pub fn get_meta(&self) -> (r: &M)
        ensures
            *r == self.meta,
    {
        &self.meta
    }
}

/// A prefix with its metadata, as a query hands it out.
pub struct PublicPrefixRecord<'a, AF: AddressFamily, M: MergeUpdate> {
    pub prefix: PrefixId<AF>,
    pub meta: &'a M,
}

impl<'a, AF: AddressFamily, M: MergeUpdate> PublicPrefixRecord<'a, AF, M> {
    /// The record of `prefix` with the metadata `meta`.
    pub fn new(prefix: PrefixId<AF>, meta: &'a M) -> (r: Self)
        ensures
            r.prefix == prefix,
            r.meta == meta,
    {
        PublicPrefixRecord { prefix, meta }
    }

    /// The record that a query hands out for a record of the store.
    pub fn new_from_record(record: &'a InternalPrefixRecord<AF, M>) -> (r: Self)
        ensures
            r.prefix == record.id(),
            *r.meta == record.meta,
    {
        PublicPrefixRecord { prefix: record.get_prefix_id(), meta: &record.meta }
    }
}

/// The paths of the prefixes of a sequence of records.
pub open spec fn record_paths<'a, AF: AddressFamily, M: MergeUpdate>(
    records: Seq<PublicPrefixRecord<'a, AF, M>>,
) -> Seq<Path> {
    Seq::new(records.len(), |i: int| records[i].prefix@)
}

/// The records are those of the store `view` for the paths `paths`, one for
/// one.
pub open spec fn records_of<'a, AF: AddressFamily, M: MergeUpdate>(
    records: Seq<PublicPrefixRecord<'a, AF, M>>,
    paths: Seq<Path>,
    view: Map<Path, M>,
) -> bool {
    &&& record_paths(records) == paths
    &&& forall|i: int|
        0 <= i < records.len() ==> {
            &&& (#[trigger] records[i]).prefix.wf()
            &&& view.contains_key(records[i].prefix@)
            &&& *records[i].meta == view[records[i].prefix@]
        }
}

/// A list of records that a query hands out.
pub struct RecordSet<'a, AF: AddressFamily, M: MergeUpdate> {
    pub records: Vec<PublicPrefixRecord<'a, AF, M>>,
}

impl<'a, AF: AddressFamily, M: MergeUpdate> View for RecordSet<'a, AF, M> {
    type V = Seq<PublicPrefixRecord<'a, AF, M>>;

    open spec fn view(&self) -> Seq<PublicPrefixRecord<'a, AF, M>> {
        self.records@
    }
}

impl<'a, AF: AddressFamily, M: MergeUpdate> RecordSet<'a, AF, M> {
    /// Whether the list holds no record.
    pub fn is_empty(&self) -> (r: bool)
        ensures
            r == (self@.len() == 0),
    {
        self.records.len() == 0
    }

    /// The number of records in the list.
    pub fn len(&self) -> (r: usize)
        ensures
            r == self@.len(),
    {
        self.records.len()
    }

    /// The record at the place `index`.
    pub fn index(&self, index: usize) -> (r: &PublicPrefixRecord<'a, AF, M>)
        requires
            index < self@.len(),
        ensures
            *r == self@[index as int],
    {
        &self.records[index]
    }

    /// The list with its records in the opposite order.
    #[must_use]
    pub fn reverse(self) -> (r: RecordSet<'a, AF, M>)
        ensures
            r@ == self@.reverse(),
    {
        let mut records = self.records;
        let ghost all = records@;
        let mut reversed: Vec<PublicPrefixRecord<'a, AF, M>> = Vec::new();
        while records.len() > 0
            invariant
                records@.len() <= all.len(),
                records@ == all.take(records@.len() as int),
                reversed@.len() == all.len() - records@.len(),
                forall|i: int|
                    0 <= i < reversed@.len() ==> reversed@[i] == all[all.len() - 1 - i],
            decreases records.len(),
        {
            let ghost before = records@;
            let last = records.pop();
            match last {
                Some(record) => {
                    proof {
                        assert(record == all[before.len() - 1]);
                        assert(records@ =~= all.take(records@.len() as int));
                    }
                    reversed.push(record);
                },
                None => {},
            }
        }
        proof {
            assert(reversed@ =~= all.reverse());
        }
        RecordSet { records: reversed }
    }

    /// A walk over the records of the list, from the first.
    pub fn iter<'b>(&'b self) -> (r: RecordSetIter<'a, 'b, AF, M>)
        ensures
            r.records() == self@,
            r.position() == 0,
    {
        RecordSetIter { set: self, pos: 0 }
    }
}

/// A walk over the records of a list.
pub struct RecordSetIter<'a, 'b, AF: AddressFamily, M: MergeUpdate> {
    set: &'b RecordSet<'a, AF, M>,
    pos: usize,
}

impl<'a, 'b, AF: AddressFamily, M: MergeUpdate> RecordSetIter<'a, 'b, AF, M> {
    /// The records that are walked over.
    pub closed spec fn records(self) -> Seq<PublicPrefixRecord<'a, AF, M>> {
        self.set@
    }

    /// The number of records that the walk has passed.
    pub closed spec fn position(self) -> nat {
        self.pos as nat
    }

    /// The next record, if there is one left.
    pub fn next(&mut self) -> (r: Option<&'b PublicPrefixRecord<'a, AF, M>>)
        requires
            old(self).position() <= old(self).records().len(),
        ensures
            final(self).records() == old(self).records(),
            match r {
                Some(record) => {
                    &&& old(self).position() < old(self).records().len()
                    &&& *record == old(self).records()[old(self).position() as int]
                    &&& final(self).position() == old(self).position() + 1
                },
                None => old(self).position() == old(self).records().len() && final(self).position()
                    == old(self).position(),
            },
    {
        if self.pos < self.set.records.len() {
            let record = &self.set.records[self.pos];
            self.pos = self.pos + 1;
            Some(record)
        } else {
            None
        }
    }
}

} // verus!
