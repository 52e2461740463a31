//! Two simple kinds of metadata.

use vstd::prelude::*;
use crate::errors::PrefixStoreError;
use crate::prefix_record::MergeUpdate;

verus! {

/// The number of the autonomous system that a prefix came from. An update
/// takes the place of what was there.
#[derive(Debug, Copy, Clone, PartialEq, Eq, PartialOrd, Ord)]
pub struct PrefixAs(pub u32);

impl MergeUpdate for PrefixAs {
    type UserDataIn = ();

    type UserDataOut = ();

    open spec fn merged(self, update: Self, user_data: ()) -> Self {
        update
    }

    proof fn lemma_merge_idempotent(self, update: Self, user_data: ()) {
    }

    fn merge_update(&mut self, update_record: PrefixAs, user_data: ()) -> (r: Result<
        (),
        PrefixStoreError,
    >)
        ensures
            r.is_ok(),
    {
        self.0 = update_record.0;
        Ok(())
    }

    fn clone_merge_update(&self, update_meta: &Self, user_data: &()) -> (r: Result<
        (Self, ()),
        PrefixStoreError,
    >)
        ensures
            r.is_ok(),
    {
        Ok((PrefixAs(update_meta.0), ()))
    }
}

/// The metadata of a store that keeps none.
#[derive(Debug, Clone, Copy, Hash, PartialEq, Eq)]
pub enum NoMeta {
    Empty,
}

impl MergeUpdate for NoMeta {
    type UserDataIn = ();

    type UserDataOut = ();

    open spec fn merged(self, update: Self, user_data: ()) -> Self {
        NoMeta::Empty
    }

    proof fn lemma_merge_idempotent(self, update: Self, user_data: ()) {
    }

    fn merge_update(&mut self, update_record: NoMeta, user_data: ()) -> (r: Result<
        (),
        PrefixStoreError,
    >)
        ensures
            r.is_ok(),
    {
        Ok(())
    }

    fn clone_merge_update(&self, update_meta: &NoMeta, user_data: &()) -> (r: Result<
        (Self, ()),
        PrefixStoreError,
    >)
        ensures
            r.is_ok(),
    {
        Ok((NoMeta::Empty, ()))
    }
}

} // verus!
