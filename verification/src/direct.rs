//! The queries that look prefixes up in the maps of the store.
//!
//! The identifier of a prefix is all that is needed to find its record, and
//! the identifier of the node that holds a prefix is computed from the
//! prefix. These queries therefore do not walk down the trie from the root:
//! they look up the ancestors of a prefix one by one, and start the search
//! for what lies below a prefix at the node that holds it.

use vstd::prelude::*;
use crossbeam_epoch::Guard;
use crate::af::AddressFamily;
use crate::consistency::{lemma_inv_basics, lemma_inv_node_at, lemma_path_nodes};
use crate::errors::PrefixStoreError;
use crate::levels::{stride_start, valid_strides, hosts_len, lemma_stride_start_bound,
    lemma_host_exists};
use crate::model::{strict_ancestors_in, direct_match, direct_anchor, is_more_specific_in,
    lists_more_specifics, lemma_strict_ancestors_in};
use crate::node_id::{PrefixId, StrideNodeId, paths_of, all_wf, lemma_paths_of_push,
    lemma_path_of_nibble, lemma_path_of_truncated};
use crate::options::{MatchOptions, MatchType};
use crate::path::Path;
use crate::prefix_record::{MergeUpdate, RecordSet, record_paths, records_of};
use crate::stats::{count_of_len, stats_ok};
use crate::store::QueryResult;
use crate::tree::TreeBitMap;

verus! {

/// A number, or the greatest number of 32 bits if it is beyond that.
pub open spec fn capped(n: nat) -> nat {
    if n < u32::MAX {
        n
    } else {
        u32::MAX as nat
    }
}

impl<AF: AddressFamily, M: MergeUpdate> TreeBitMap<AF, M> {
    /// The level that holds the prefixes of length `len`, and the length of
    /// the identifiers of its nodes.
    pub fn get_host_level(&self, len: u8) -> (r: (usize, u8))
        requires
            self.wf(),
            1 <= len <= AF::width(),
        ensures
            hosts_len(self.strides(), r.0 as nat, len as nat),
            r.1 == stride_start(self.strides(), r.0 as nat),
    {
        let strides = self.store.get_stride_sizes();
        let ghost s = self.strides();
        let ghost w = AF::width();
        proof {
            lemma_inv_basics(
                self.store.nodes(),
                self.store.prefixes().dom(),
                self.store.prefixes().dom(),
                s,
                w,
            );
            AF::lemma_width();
            lemma_host_exists(s, w, len as nat);
        }
        let mut start: u8 = 0;
        let mut i: usize = 0;
        loop
            invariant
                strides@ == s,
                s == self.strides(),
                valid_strides(s, w),
                w <= 128,
                1 <= len <= w,
                i < s.len(),
                i < strides.len(),
                start == stride_start(s, i as nat),
                start < len,
            decreases s.len() - i,
        {
            proof {
                lemma_stride_start_bound(s, w, i as nat);
                if i + 1 == s.len() {
                    lemma_stride_start_bound(s, w, (i + 1) as nat);
                }
            }
            let end: u8 = start + strides[i];
            if len <= end {
                return (i, start);
            }
            start = end;
            i += 1;
        }
    }

    /// The prefixes in the store that cover `prefix_id` and are shorter,
    /// the default route among them, from the shortest to the longest.
    pub fn less_specific_prefix_iter(&self, prefix_id: PrefixId<AF>, guard: &Guard) -> (r: Vec<
        PrefixId<AF>,
    >)
        requires
            self.wf(),
            prefix_id.wf(),
        ensures
            all_wf(r@),
            paths_of(r@) == strict_ancestors_in(self@.dom(), prefix_id@, prefix_id@.len),
    {
        let ghost q = prefix_id@;
        let ghost dom = self.store.prefixes().dom();
        proof {
            prefix_id.lemma_view_wf();
            assert(self@.dom() =~= dom);
        }
        let mut found: Vec<PrefixId<AF>> = Vec::new();
        let mut len: u8 = 0;
        proof {
            assert(paths_of(found@) =~= Seq::<Path>::empty());
        }
        while len < prefix_id.len
            invariant
                self.wf(),
                prefix_id.wf(),
                q == prefix_id@,
                dom == self.store.prefixes().dom(),
                len <= prefix_id.len,
                all_wf(found@),
                paths_of(found@) == strict_ancestors_in(dom, q, len as nat),
            decreases prefix_id.len - len,
        {
            let ancestor = prefix_id.ancestor(len);
            if self.store.retrieve_prefix_with_guard(ancestor, guard).is_some() {
                proof {
                    lemma_paths_of_push(found@, ancestor);
                }
                found.push(ancestor);
            }
            len += 1;
        }
        found
    }

    /// The prefixes in the store below `prefix_id`, in ascending order.
    pub fn more_specific_prefix_iter_from(&self, prefix_id: PrefixId<AF>, guard: &Guard) -> (r: Vec<
        PrefixId<AF>,
    >)
        requires
            self.wf(),
            prefix_id.wf(),
        ensures
            all_wf(r@),
            lists_more_specifics(paths_of(r@), self@.dom(), prefix_id@),
    {
        let ghost q = prefix_id@;
        let ghost dom = self.store.prefixes().dom();
        let ghost nodes = self.store.nodes();
        let ghost strides = self.strides();
        let ghost w = AF::width();
        proof {
            prefix_id.lemma_view_wf();
            AF::lemma_width();
            assert(self@.dom() =~= dom);
            lemma_inv_basics(nodes, dom, dom, strides, w);
            q.lemma_ancestor_self();
        }
        let (level, start) = if prefix_id.len == 0 {
            (0usize, 0u8)
        } else {
            self.get_host_level(prefix_id.len)
        };
        let nibble_len: u8 = prefix_id.len - start;
        proof {
            lemma_stride_start_bound(strides, w, level as nat);
            lemma_path_of_nibble(
                prefix_id.net.as_nat(),
                w,
                prefix_id.len as nat,
                start as nat,
                nibble_len as nat,
            );
            lemma_path_of_truncated(
                prefix_id.net.as_nat(),
                w,
                prefix_id.len as nat,
                start as nat,
            );
            q.lemma_ancestor_extend(start as nat, nibble_len as nat);
        }
        let nibble = AF::get_nibble(prefix_id.net, start, nibble_len);
        let node_id = StrideNodeId::new_with_cleaned_id(prefix_id.net, start);
        match self.store.retrieve_node_with_guard(node_id, guard) {
            Some(node) => {
                proof {
                    lemma_inv_node_at(nodes, dom, dom, strides, w, level as nat, node_id@);
                }
                match self.get_all_more_specifics_from_nibble(node, nibble, nibble_len, node_id) {
                    Some(found) => found,
                    None => Vec::new(),
                }
            },
            None => {
                let found: Vec<PrefixId<AF>> = Vec::new();
                proof {
                    let list = paths_of(found@);
                    assert(list =~= Seq::<Path>::empty());
                    assert forall|p: Path| !is_more_specific_in(dom, q, p) by {
                        if is_more_specific_in(dom, q, p) {
                            q.lemma_covers_longer(p);
                            lemma_path_nodes(nodes, dom, dom, strides, w, p, level as nat);
                            p.lemma_ancestor_ancestor(q.len, start as nat);
                        }
                    }
                }
                found
            },
        }
    }

    /// Whether `r` is the answer to a query for the prefixes below `q`: it
    /// holds `q` with its metadata if `q` is in the store, no kind of match
    /// and no less-specifics, and as more-specifics all the prefixes in the
    /// store below `q`, in ascending order.
    pub open spec fn more_specifics_answer<'a>(self, q: PrefixId<AF>, r: QueryResult<'a, AF, M>) -> bool {
        &&& r.match_type == MatchType::EmptyMatch
        &&& r.prefix == if self@.contains_key(q@) {
            Some(q)
        } else {
            None
        }
        &&& r.prefix_meta.is_some() == self@.contains_key(q@)
        &&& r.prefix_meta matches Some(meta) ==> *meta == self@[q@]
        &&& r.less_specifics.is_none()
        &&& r.more_specifics matches Some(more) && records_of(more@, record_paths(more@), self@)
            && lists_more_specifics(record_paths(more@), self@.dom(), q@)
    }

    /// Whether `r` is the answer to a query for the prefixes that cover
    /// `q`: it holds `q` with its metadata if `q` is in the store, no kind
    /// of match and no more-specifics, and as less-specifics all the
    /// prefixes in the store that cover `q` and are shorter, the default
    /// route among them, from the shortest to the longest.
    pub open spec fn less_specifics_answer<'a>(self, q: PrefixId<AF>, r: QueryResult<'a, AF, M>) -> bool {
        &&& r.match_type == MatchType::EmptyMatch
        &&& r.prefix == if self@.contains_key(q@) {
            Some(q)
        } else {
            None
        }
        &&& r.prefix_meta.is_some() == self@.contains_key(q@)
        &&& r.prefix_meta matches Some(meta) ==> *meta == self@[q@]
        &&& r.more_specifics.is_none()
        &&& r.less_specifics matches Some(less) && records_of(
            less@,
            strict_ancestors_in(self@.dom(), q@, q@.len),
            self@,
        )
    }

    /// Whether `r` is the answer of a look-up in the maps to a query for
    /// `q`.
    ///
    /// The match is what `direct_match` says: `q` if it is in the store,
    /// and else the longest prefix in the store that covers it. It comes
    /// with the metadata that the store has for it, and the kind of match
    /// says whether it is `q`. The less- and the more-specifics are there if
    /// they are asked for, and are those of the prefix that was found, or of
    /// `q` if none was.
    pub open spec fn direct_answer<'a>(
        self,
        q: PrefixId<AF>,
        options: MatchOptions,
        r: QueryResult<'a, AF, M>,
    ) -> bool {
        let anchor = direct_anchor(self@.dom(), q@);
        &&& r.prefix_path() == direct_match(self@.dom(), q@)
        &&& r.matches_store(self@, q@)
        &&& r.less_specifics.is_some() == options.include_less_specifics
        &&& r.less_specifics matches Some(less) ==> records_of(
            less@,
            strict_ancestors_in(self@.dom(), anchor, anchor.len),
            self@,
        )
        &&& r.more_specifics.is_some() == options.include_more_specifics
        &&& r.more_specifics matches Some(more) ==> records_of(more@, record_paths(more@), self@)
            && lists_more_specifics(record_paths(more@), self@.dom(), anchor)
    }

    /// The prefix `prefix_id` with its metadata, if it is in the store, and
    /// the prefixes in the store below it.
    pub fn more_specifics_from<'a>(&'a self, prefix_id: PrefixId<AF>, guard: &'a Guard) -> (r:
        QueryResult<'a, AF, M>)
        requires
            self.wf(),
            prefix_id.wf(),
        ensures
            self.more_specifics_answer(prefix_id, r),
    {
        let found = self.store.retrieve_prefix_with_guard(prefix_id, guard);
        let more_specifics_vec = self.more_specific_prefix_iter_from(prefix_id, guard);
        proof {
            let paths = paths_of(more_specifics_vec@);
            assert forall|i: int| 0 <= i < more_specifics_vec@.len() implies self@.contains_key(
                #[trigger] more_specifics_vec@[i]@,
            ) by {
                assert(paths[i] == more_specifics_vec@[i]@);
                assert(paths.contains(paths[i]));
            }
        }
        let more = self.resolve(&more_specifics_vec);
        QueryResult {
            prefix: match found {
                Some(_) => Some(prefix_id),
                None => None,
            },
            prefix_meta: match found {
                Some(record) => Some(&record.0.meta),
                None => None,
            },
            match_type: MatchType::EmptyMatch,
            less_specifics: None,
            more_specifics: Some(more),
        }
    }

    /// The prefix `prefix_id` with its metadata, if it is in the store, and
    /// the prefixes in the store that cover it and are shorter.
    pub fn less_specifics_from<'a>(&'a self, prefix_id: PrefixId<AF>, guard: &'a Guard) -> (r:
        QueryResult<'a, AF, M>)
        requires
            self.wf(),
            prefix_id.wf(),
        ensures
            self.less_specifics_answer(prefix_id, r),
    {
        let found = self.store.retrieve_prefix_with_guard(prefix_id, guard);
        let less_specifics_vec = self.less_specific_prefix_iter(prefix_id, guard);
        proof {
            prefix_id.lemma_view_wf();
            lemma_strict_ancestors_in(self@.dom(), prefix_id@, prefix_id@.len);
            let paths = paths_of(less_specifics_vec@);
            assert forall|i: int| 0 <= i < less_specifics_vec@.len() implies self@.contains_key(
                #[trigger] less_specifics_vec@[i]@,
            ) by {
                assert(paths[i] == less_specifics_vec@[i]@);
                assert(paths.contains(paths[i]));
            }
        }
        let less = self.resolve(&less_specifics_vec);
        QueryResult {
            prefix: match found {
                Some(_) => Some(prefix_id),
                None => None,
            },
            prefix_meta: match found {
                Some(record) => Some(&record.0.meta),
                None => None,
            },
            match_type: MatchType::EmptyMatch,
            less_specifics: Some(less),
            more_specifics: None,
        }
    }

    /// The prefixes in the store below `prefix_id`, with their metadata, if
    /// `prefix_id` is in the store; the prefix is not found if it is not.
    pub fn more_specifics_iter_from<'a>(&'a self, prefix_id: PrefixId<AF>, guard: &'a Guard) -> (r:
        Result<RecordSet<'a, AF, M>, PrefixStoreError>)
        requires
            self.wf(),
            prefix_id.wf(),
        ensures
            r.is_ok() == self@.contains_key(prefix_id@),
            r matches Ok(more) ==> records_of(more@, record_paths(more@), self@)
                && lists_more_specifics(record_paths(more@), self@.dom(), prefix_id@),
            r matches Err(e) ==> e == PrefixStoreError::PrefixNotFound,
    {
        if self.store.retrieve_prefix_with_guard(prefix_id, guard).is_none() {
            return Err(PrefixStoreError::PrefixNotFound);
        }
        let more_specifics_vec = self.more_specific_prefix_iter_from(prefix_id, guard);
        proof {
            let paths = paths_of(more_specifics_vec@);
            assert forall|i: int| 0 <= i < more_specifics_vec@.len() implies self@.contains_key(
                #[trigger] more_specifics_vec@[i]@,
            ) by {
                assert(paths[i] == more_specifics_vec@[i]@);
                assert(paths.contains(paths[i]));
            }
        }
        Ok(self.resolve(&more_specifics_vec))
    }

    /// Looks a prefix up in the maps of the store.
    ///
    /// The prefix itself is an exact match if it is in the store. If it is
    /// not, the longest prefix in the store that covers it is a longest
    /// match, and this may be the default route. The kind of match that the
    /// options ask for is not looked at. The less- and the more-specifics,
    /// where they are asked for, are those of the prefix that was found,
    /// and those of the search prefix if none was.
    pub fn match_prefix_by_store_direct<'a>(
        &'a self,
        search_pfx: PrefixId<AF>,
        options: &MatchOptions,
        guard: &'a Guard,
    ) -> (r: QueryResult<'a, AF, M>)
        requires
            self.wf(),
            search_pfx.wf(),
        ensures
            self.direct_answer(search_pfx, *options, r),
    {
        let ghost q = search_pfx@;
        let ghost dom = self@.dom();
        proof {
            search_pfx.lemma_view_wf();
            lemma_strict_ancestors_in(dom, q, q.len);
            assert(dom =~= self.store.prefixes().dom());
        }
        let exact = self.store.retrieve_prefix_with_guard(search_pfx, guard);
        let mut prefix: Option<PrefixId<AF>> = None;
        let mut prefix_meta: Option<&'a M> = None;
        let mut match_type = MatchType::EmptyMatch;
        match exact {
            Some(found) => {
                prefix = Some(search_pfx);
                prefix_meta = Some(&found.0.meta);
                match_type = MatchType::ExactMatch;
            },
            None => {
                let covering = self.less_specific_prefix_iter(search_pfx, guard);
                if covering.len() > 0 {
                    let longest = covering[covering.len() - 1];
                    proof {
                        let paths = paths_of(covering@);
                        assert(paths.last() == longest@);
                        assert(paths.contains(paths.last()));
                    }
                    match self.store.retrieve_prefix_with_guard(longest, guard) {
                        Some(found) => {
                            prefix = Some(longest);
                            prefix_meta = Some(&found.0.meta);
                            match_type = MatchType::LongestMatch;
                        },
                        None => {},
                    }
                } else {
                    proof {
                        assert(paths_of(covering@).len() == 0);
                    }
                }
            },
        }
        let anchor = match prefix {
            Some(found) => found,
            None => search_pfx,
        };
        proof {
            anchor.lemma_view_wf();
            lemma_strict_ancestors_in(dom, anchor@, anchor@.len);
        }
        let less_specifics = if options.include_less_specifics {
            let ids = self.less_specific_prefix_iter(anchor, guard);
            proof {
                let paths = paths_of(ids@);
                assert forall|i: int| 0 <= i < ids@.len() implies self@.contains_key(
                    #[trigger] ids@[i]@,
                ) by {
                    assert(paths[i] == ids@[i]@);
                    assert(paths.contains(paths[i]));
                }
            }
            Some(self.resolve(&ids))
        } else {
            None
        };
        let more_specifics = if options.include_more_specifics {
            let ids = self.more_specific_prefix_iter_from(anchor, guard);
            proof {
                let paths = paths_of(ids@);
                assert forall|i: int| 0 <= i < ids@.len() implies self@.contains_key(
                    #[trigger] ids@[i]@,
                ) by {
                    assert(paths[i] == ids@[i]@);
                    assert(paths.contains(paths[i]));
                }
            }
            Some(self.resolve(&ids))
        } else {
            None
        };
        QueryResult { prefix, prefix_meta, match_type, less_specifics, more_specifics }
    }

    /// The records of all the prefixes in the store, in the order in which
    /// the prefixes were first inserted.
    pub fn prefixes_iter<'a>(&'a self) -> (r: RecordSet<'a, AF, M>)
        requires
            self.wf(),
        ensures
            records_of(r@, paths_of(self.store.prefix_ids()), self@),
            record_paths(r@).no_duplicates(),
            forall|p: Path| #[trigger] record_paths(r@).contains(p) <==> self@.contains_key(p),
    {
        proof {
            self.store.lemma_wf();
            let ids = self.store.prefix_ids();
            let paths = paths_of(ids);
            assert forall|i: int| 0 <= i < ids.len() implies self@.contains_key(#[trigger] ids[i]@) by {
                assert(paths[i] == ids[i]@);
                assert(paths.contains(paths[i]));
            }
        }
        self.resolve(self.store.get_prefix_ids())
    }

    /// The number of prefixes in the store.
    pub fn prefixes_len(&self) -> (r: usize)
        requires
            self.wf(),
        ensures
            r == self@.dom().len(),
            self@.dom().finite(),
    {
        proof {
            assert(self@.dom() =~= self.store.prefixes().dom());
        }
        self.store.get_prefixes_len()
    }

    /// The number of nodes at each level of the trie, from the root down,
    /// as the counters have it. A number beyond the greatest that 32 bits
    /// hold is given as that greatest.
    pub fn nodes_per_stride(&self) -> (r: Vec<u32>)
        requires
            self.wf(),
        ensures
            r@.len() == self.strides().len(),
            forall|i: int|
                0 <= i < r@.len() ==> #[trigger] r@[i] as nat == capped(
                    count_of_len(
                        self.store.node_ids(),
                        stride_start(self.strides(), i as nat),
                    ),
                ),
    {
        let strides = self.store.get_stride_sizes();
        let ghost s = self.strides();
        let ghost ids = self.store.node_ids();
        proof {
            lemma_inv_basics(
                self.store.nodes(),
                self.store.prefixes().dom(),
                self.store.prefixes().dom(),
                s,
                AF::width(),
            );
        }
        let mut stride_levels: Vec<u32> = Vec::new();
        let mut level: usize = 0;
        while level < strides.len()
            invariant
                strides@ == s,
                s == self.strides(),
                ids == self.store.node_ids(),
                valid_strides(s, AF::width()),
                stats_ok(self.stats@, s, ids),
                level <= s.len(),
                stride_levels@.len() == level,
                forall|i: int|
                    0 <= i < level ==> #[trigger] stride_levels@[i] as nat == capped(
                        count_of_len(ids, stride_start(s, i as nat)),
                    ),
            decreases strides.len() - level,
        {
            let stride = strides[level];
            // The counters of the stride of the level.
            let counters = &self.stats[(stride - 3) as usize];
            proof {
                assert(self.stats@[stride - 3].count_at(level as int) == count_of_len(
                    ids,
                    stride_start(s, level as nat),
                ));
            }
            let count = counters.created_nodes[level].count;
            let shown: u32 = if count < u32::MAX as usize {
                count as u32
            } else {
                u32::MAX
            };
            stride_levels.push(shown);
            level += 1;
        }
        stride_levels
    }

    /// The number of nodes in the store.
    pub fn nodes_len(&self) -> (r: usize)
        requires
            self.wf(),
        ensures
            r == self.store.nodes().dom().len(),
    {
        self.store.get_nodes_len()
    }
}

} // verus!
