//! The queries that walk down the trie.

use vstd::prelude::*;
use crossbeam_epoch::Guard;
use crate::af::AddressFamily;
use crate::consistency::{lemma_inv_basics, lemma_inv_node_at, lemma_node_iff_descendant};
use crate::levels::{stride_start, valid_strides, lemma_stride_start_bound};
use crate::model::{longest_in, ancestors_in, has_descendant, stop_level, boundary_ancestors,
    seen_end, walk_prefix, walk_less_specifics, walk_collects_more, is_more_specific_in,
    lists_more_specifics, lemma_agree, lemma_longest_in_split, lemma_ancestors_in_split,
    lemma_longest_in, lemma_ancestors_in};
use crate::node::{TreeBitMapNode, option_path};
use crate::node_id::{PrefixId, StrideNodeId, paths_of, all_wf, lemma_path_of_nibble,
    lemma_path_of_truncated};
use crate::options::{MatchOptions, MatchType};
use crate::path::Path;
use crate::prefix_record::{MergeUpdate, PublicPrefixRecord, RecordSet, record_paths, records_of};
use crate::store::QueryResult;
use crate::tree::TreeBitMap;

verus! {

/// Where nothing of a store lies below an ancestor of `q`, the store has
/// neither `q`, nor a longer ancestor of `q`, nor anything below `q`.
pub proof fn lemma_nothing_below(dom: Set<Path>, q: Path, len: nat)
    requires
        len < q.len,
        !has_descendant(dom, q.ancestor(len)),
    ensures
        !dom.contains(q),
        forall|l: nat| len < l <= q.len ==> !dom.contains(#[trigger] q.ancestor(l)),
        longest_in(dom, q, len, q.len).is_none(),
        ancestors_in(dom, q, len, q.len) == Seq::<Path>::empty(),
        forall|p: Path| !is_more_specific_in(dom, q, p),
        forall|p: Path| !is_more_specific_in(dom, q.ancestor(len), p),
{
    let c = q.ancestor(len);
    assert forall|l: nat| len < l <= q.len implies !dom.contains(#[trigger] q.ancestor(l)) by {
        q.lemma_ancestor_ancestor(l, len);
        if dom.contains(q.ancestor(l)) {
            assert(c.covers(q.ancestor(l)));
        }
    }
    q.lemma_ancestor_self();
    assert(!dom.contains(q.ancestor(q.len)));
    lemma_longest_in(dom, q, len, q.len);
    lemma_ancestors_in(dom, q, len, q.len);
    let found = ancestors_in(dom, q, len, q.len);
    if found.len() > 0 {
        let p = found[0];
        assert(dom.contains(q.ancestor(p.len)));
    }
    assert(found =~= Seq::<Path>::empty());
    assert forall|p: Path| !is_more_specific_in(dom, q, p) by {
        if is_more_specific_in(dom, q, p) {
            q.lemma_covers_longer(p);
            c.lemma_covers_transitive(q, p);
        }
    }
    assert forall|p: Path| !is_more_specific_in(dom, c, p) by {
        if is_more_specific_in(dom, c, p) {
            c.lemma_covers_longer(p);
        }
    }
}

/// The prefixes below the part of `q` that a walk has seen are the prefixes
/// below `q`, where the walk has seen all of `q` or nothing of the store
/// lies below what it has seen.
pub proof fn lemma_more_at_stop(dom: Set<Path>, q: Path, end: nat, list: Seq<Path>)
    requires
        end <= q.len,
        lists_more_specifics(list, dom, q.ancestor(end)),
        end < q.len ==> !has_descendant(dom, q.ancestor(end)),
    ensures
        lists_more_specifics(list, dom, q),
{
    if end < q.len {
        lemma_nothing_below(dom, q, end);
        assert forall|p: Path| #[trigger] list.contains(p) <==> is_more_specific_in(dom, q, p) by {
            assert(!is_more_specific_in(dom, q.ancestor(end), p));
        }
    } else {
        q.lemma_ancestor_self();
    }
}

/// The ancestors of `q` that end where a level ends are prefixes of the
/// store if they are listed as such.
pub proof fn lemma_boundary_ancestors(dom: Set<Path>, strides: Seq<u8>, q: Path, i: nat)
    ensures
        forall|k: int|
            0 <= k < boundary_ancestors(dom, strides, q, i).len() ==> dom.contains(
                #[trigger] boundary_ancestors(dom, strides, q, i)[k],
            ),
    decreases i,
{
    if i > 0 {
        lemma_boundary_ancestors(dom, strides, q, (i - 1) as nat);
        let rest = boundary_ancestors(dom, strides, q, (i - 1) as nat);
        let all = boundary_ancestors(dom, strides, q, i);
        assert forall|k: int| 0 <= k < all.len() implies dom.contains(#[trigger] all[k]) by {
            if k < rest.len() {
                assert(all[k] == rest[k]);
            }
        }
    }
}

impl<AF: AddressFamily, M: MergeUpdate> TreeBitMap<AF, M> {
    /// What a level of a consistent store holds on the way to `q`: the
    /// node of the level has the prefixes of the store that the level sees,
    /// and has a child where the store has something further down.
    pub proof fn lemma_level_facts(self, q: Path, i: nat)
        requires
            self.wf(),
            q.wf(),
            i < self.strides().len(),
            stride_start(self.strides(), i) < q.len <= AF::width(),
            self.store.nodes().contains_key(q.ancestor(stride_start(self.strides(), i))),
        ensures
            ({
                let start = stride_start(self.strides(), i);
                let n = q.ancestor(start);
                let node = self.store.nodes()[n];
                let end = seen_end(self.strides(), q, i);
                let dom = self.store.prefixes().dom();
                &&& node.wf()
                &&& node.stride == self.strides()[i as int]
                &&& start + node.stride == stride_start(self.strides(), i + 1)
                &&& start + node.stride <= AF::width()
                &&& start < end <= start + node.stride
                &&& end <= q.len
                &&& longest_in(node.prefix_set(n), q, start, end) == longest_in(dom, q, start, end)
                &&& ancestors_in(node.prefix_set(n), q, start, end) == ancestors_in(
                    dom,
                    q,
                    start,
                    end,
                )
                &&& node.holds_prefix(n, q.ancestor(end)) == dom.contains(q.ancestor(end))
                &&& q.len > start + node.stride ==> {
                    &&& i + 1 < self.strides().len()
                    &&& node.holds_child(n, q.ancestor(end)) == self.store.nodes().contains_key(
                        q.ancestor(end),
                    )
                    &&& node.holds_child(n, q.ancestor(end)) == has_descendant(
                        dom,
                        q.ancestor(end),
                    )
                }
            }),
    {
        let strides = self.strides();
        let nodes = self.store.nodes();
        let dom = self.store.prefixes().dom();
        let w = AF::width();
        let start = stride_start(strides, i);
        let n = q.ancestor(start);
        let node = nodes[n];
        let end = seen_end(strides, q, i);
        lemma_inv_node_at(nodes, dom, dom, strides, w, i, n);
        lemma_stride_start_bound(strides, w, i);
        self.store.lemma_wf();
        assert forall|l: nat| start < l <= end implies node.prefix_set(n).contains(
            #[trigger] q.ancestor(l),
        ) == dom.contains(q.ancestor(l)) by {
            q.lemma_ancestor_ancestor(l, start);
            assert(crate::consistency::in_node(n, node.stride, q.ancestor(l)));
        }
        lemma_agree(node.prefix_set(n), dom, q, start, end);
        assert(node.prefix_set(n).contains(q.ancestor(end)) == node.holds_prefix(n, q.ancestor(end)));
        if q.len > start + node.stride {
            if i + 1 >= strides.len() {
                lemma_stride_start_bound(strides, w, (i + 1) as nat);
            }
            q.lemma_ancestor_ancestor(end, start);
            assert(crate::consistency::below_node(n, node.stride, q.ancestor(end)));
            lemma_node_iff_descendant(nodes, dom, strides, w, q.ancestor(end), i + 1);
        }
    }

    /// Searches one node on the way to the search prefix, in the way that
    /// the options ask for: for the search prefix itself, with or without
    /// the prefixes that cover it, or for the longest prefix that covers it.
    pub fn search_stride(
        node: &TreeBitMapNode,
        options: &MatchOptions,
        search_pfx: PrefixId<AF>,
        nibble: u32,
        nibble_len: u8,
        start_bit: u8,
        less_specifics_vec: &mut Option<Vec<PrefixId<AF>>>,
    ) -> (r: (Option<StrideNodeId<AF>>, Option<PrefixId<AF>>))
        requires
            node.wf(),
            search_pfx.wf(),
            1 <= nibble_len <= node.stride,
            start_bit + nibble_len <= search_pfx.len,
            nibble == search_pfx@.nibble(start_bit as nat, nibble_len as nat),
            old(less_specifics_vec).is_some() == options.include_less_specifics,
            *old(less_specifics_vec) matches Some(v) ==> all_wf(v@),
        ensures
            final(less_specifics_vec).is_some() == options.include_less_specifics,
            r.0.is_some() == (search_pfx.len > start_bit + nibble_len && node.holds_child(
                search_pfx@.ancestor(start_bit as nat),
                search_pfx@.ancestor((start_bit + nibble_len) as nat),
            )),
            r.0 matches Some(c) ==> c.wf() && c@ == search_pfx@.ancestor(
                (start_bit + nibble_len) as nat,
            ),
            r.1 matches Some(p) ==> p.wf(),
            options.match_type == MatchType::ExactMatch ==> {
                &&& r.1.is_some() == (search_pfx.len == start_bit + nibble_len
                    && node.holds_prefix(search_pfx@.ancestor(start_bit as nat), search_pfx@))
                &&& r.1 matches Some(p) ==> p@ == search_pfx@
            },
            options.match_type != MatchType::ExactMatch ==> option_path(r.1) == longest_in(
                node.prefix_set(search_pfx@.ancestor(start_bit as nat)),
                search_pfx@,
                start_bit as nat,
                (start_bit + nibble_len) as nat,
            ),
            *final(less_specifics_vec) matches Some(v) ==> all_wf(v@) && paths_of(v@) == if options.match_type
                == MatchType::ExactMatch {
                if r.0.is_some() || r.1.is_some() {
                    paths_of(old(less_specifics_vec).unwrap()@) + ancestors_in(
                        node.prefix_set(search_pfx@.ancestor(start_bit as nat)),
                        search_pfx@,
                        start_bit as nat,
                        (start_bit + nibble_len) as nat,
                    )
                } else {
                    Seq::<Path>::empty()
                }
            } else {
                if r.0.is_some() && node.holds_prefix(
                    search_pfx@.ancestor(start_bit as nat),
                    search_pfx@.ancestor((start_bit + nibble_len) as nat),
                ) {
                    paths_of(old(less_specifics_vec).unwrap()@).push(
                        search_pfx@.ancestor((start_bit + nibble_len) as nat),
                    )
                } else {
                    paths_of(old(less_specifics_vec).unwrap()@)
                }
            },
    {
        match options.match_type {
            MatchType::ExactMatch => {
                if options.include_less_specifics {
                    node.search_stride_for_exact_match_with_less_specifics_at(
                        search_pfx,
                        nibble,
                        nibble_len,
                        start_bit,
                        less_specifics_vec,
                    )
                } else {
                    node.search_stride_for_exact_match_at(
                        search_pfx,
                        nibble,
                        nibble_len,
                        start_bit,
                        less_specifics_vec,
                    )
                }
            },
            MatchType::LongestMatch => {
                node.search_stride_for_longest_match_at(
                    search_pfx,
                    nibble,
                    nibble_len,
                    start_bit,
                    less_specifics_vec,
                )
            },
            MatchType::EmptyMatch => {
                node.search_stride_for_longest_match_at(
                    search_pfx,
                    nibble,
                    nibble_len,
                    start_bit,
                    less_specifics_vec,
                )
            },
        }
    }

    /// Whether `r` is the answer of a walk down the trie to a query for
    /// `q`.
    ///
    /// The prefix of the answer is in the store, with the metadata that
    /// the store has for it, and the kind of match says whether it is `q`.
    /// For the default route nothing else is answered. For every other
    /// prefix the match is what `walk_prefix` says. The less-specifics are
    /// there if they are asked for, and are what `walk_less_specifics`
    /// says. The more-specifics are there if they are asked for: they are
    /// all the prefixes in the store below `q`, in ascending order, if
    /// `walk_collects_more` says that they are collected, and none if not.
    pub open spec fn walk_answer<'a>(
        self,
        q: PrefixId<AF>,
        options: MatchOptions,
        r: QueryResult<'a, AF, M>,
    ) -> bool {
        &&& r.matches_store(self@, q@)
        &&& q.len == 0 ==> {
            &&& r.prefix_path() == if self@.contains_key(q@) {
                Some(q@)
            } else {
                None
            }
            &&& r.less_specifics.is_none()
            &&& r.more_specifics.is_none()
        }
        &&& q.len > 0 ==> {
            &&& r.prefix_path() == walk_prefix(self@.dom(), self.strides(), q@, options.match_type)
            &&& r.less_specifics.is_some() == options.include_less_specifics
            &&& r.less_specifics matches Some(less) ==> records_of(
                less@,
                walk_less_specifics(self@.dom(), self.strides(), q@, options.match_type),
                self@,
            )
            &&& r.more_specifics.is_some() == options.include_more_specifics
            &&& r.more_specifics matches Some(more) ==> {
                &&& records_of(more@, record_paths(more@), self@)
                &&& if walk_collects_more(self@.dom(), self.strides(), q@, options.match_type) {
                    lists_more_specifics(record_paths(more@), self@.dom(), q@)
                } else {
                    more@.len() == 0
                }
            }
        }
    }

    /// Looks a prefix up by walking down the trie.
    ///
    /// The default route is looked up in its own place: if it is in the
    /// store it is an exact match, and neither less- nor more-specifics are
    /// given. For every other prefix the walk goes from the root through
    /// the nodes on the way to the prefix, as far as they are there, and
    /// returns what `walk_prefix`, `walk_less_specifics` and
    /// `walk_collects_more` say: the match, the less-specifics where they
    /// are asked for, and the more-specifics where they are asked for and
    /// collected. More-specifics that are asked for and not collected are
    /// an empty list.
    pub fn match_prefix_by_tree_traversal<'a>(
        &'a self,
        search_pfx: PrefixId<AF>,
        options: &MatchOptions,
        guard: &'a Guard,
    ) -> (r: QueryResult<'a, AF, M>)
        requires
            self.wf(),
            search_pfx.wf(),
        ensures
            self.walk_answer(search_pfx, *options, r),
    {
        let ghost q = search_pfx@;
        let ghost dom = self.store.prefixes().dom();
        let ghost nodes = self.store.nodes();
        let ghost strides = self.strides();
        let ghost w = AF::width();
        let ghost kind = options.match_type;
        proof {
            search_pfx.lemma_view_wf();
            AF::lemma_width();
            self.store.lemma_wf();
            lemma_inv_basics(nodes, dom, dom, strides, w);
            assert(self@.dom() =~= dom);
            vstd::arithmetic::power2::lemma2_to64();
        }
        if search_pfx.get_len() == 0 {
            match self.store.load_default_route_prefix_serial() {
                0 => {
                    return QueryResult {
                        prefix: None,
                        prefix_meta: None,
                        match_type: MatchType::EmptyMatch,
                        less_specifics: None,
                        more_specifics: None,
                    };
                },
                _ => {
                    match self.store.retrieve_prefix_with_guard(search_pfx, guard) {
                        Some(found) => {
                            return QueryResult {
                                prefix: Some(search_pfx),
                                prefix_meta: Some(&found.0.meta),
                                match_type: MatchType::ExactMatch,
                                less_specifics: None,
                                more_specifics: None,
                            };
                        },
                        None => {
                            return QueryResult {
                                prefix: None,
                                prefix_meta: None,
                                match_type: MatchType::EmptyMatch,
                                less_specifics: None,
                                more_specifics: None,
                            };
                        },
                    }
                },
            }
        }
        let levels = self.store.get_stride_sizes().len();
        let mut stride_end: u8 = 0;
        let mut level: usize = 0;
        let root_node_id = self.store.get_root_node_id();
        let mut node: TreeBitMapNode = match self.store.retrieve_node_with_guard(root_node_id, guard) {
            Some(n) => *n,
            None => TreeBitMapNode::new(3),
        };

        // The results of the walk, put together at the end.
        let mut match_prefix_idx: Option<PrefixId<AF>> = None;
        let mut less_specifics_vec: Option<Vec<PrefixId<AF>>> = if options.include_less_specifics {
            Some(Vec::new())
        } else {
            None
        };
        let mut more_specifics_vec: Option<Vec<PrefixId<AF>>> = if options.include_more_specifics {
            Some(Vec::new())
        } else {
            None
        };
        proof {
            q.lemma_root_covers();
            if less_specifics_vec.is_some() {
                assert(paths_of(less_specifics_vec.unwrap()@) =~= Seq::<Path>::empty());
            }
        }

        loop
            invariant_except_break
                level < levels,
                stride_end == stride_start(strides, level as nat),
                stride_end < search_pfx.len,
                nodes.contains_key(q.ancestor(stride_end as nat)),
                node == nodes[q.ancestor(stride_end as nat)],
                stop_level(dom, strides, q, 0) == stop_level(dom, strides, q, level as nat),
                match_prefix_idx matches Some(p) ==> p.wf(),
                kind == MatchType::ExactMatch ==> match_prefix_idx.is_none(),
                kind == MatchType::LongestMatch ==> option_path(match_prefix_idx) == longest_in(
                    dom,
                    q,
                    0,
                    stride_end as nat,
                ),
                less_specifics_vec.is_some() == options.include_less_specifics,
                less_specifics_vec matches Some(v) ==> all_wf(v@) && paths_of(v@) == if kind
                    == MatchType::ExactMatch {
                    ancestors_in(dom, q, 0, stride_end as nat)
                } else {
                    boundary_ancestors(dom, strides, q, level as nat)
                },
                more_specifics_vec.is_some() == options.include_more_specifics,
                more_specifics_vec matches Some(v) ==> v@.len() == 0,
            invariant
                self.wf(),
                search_pfx.wf(),
                q == search_pfx@,
                q.wf(),
                dom == self.store.prefixes().dom(),
                nodes == self.store.nodes(),
                strides == self.strides(),
                w == AF::width(),
                kind == options.match_type,
                valid_strides(strides, w),
                levels == strides.len(),
                1 <= search_pfx.len <= w <= 128,
            ensures
                match_prefix_idx matches Some(p) ==> p.wf(),
                option_path(match_prefix_idx) == walk_prefix(dom, strides, q, kind),
                less_specifics_vec.is_some() == options.include_less_specifics,
                less_specifics_vec matches Some(v) ==> all_wf(v@) && paths_of(v@)
                    == walk_less_specifics(dom, strides, q, kind),
                more_specifics_vec.is_some() == options.include_more_specifics,
                more_specifics_vec matches Some(v) ==> all_wf(v@) && if walk_collects_more(
                    dom,
                    strides,
                    q,
                    kind,
                ) {
                    lists_more_specifics(paths_of(v@), dom, q)
                } else {
                    v@.len() == 0
                },
            decreases levels - level,
        {
            let ghost start = stride_end as nat;
            let ghost end = seen_end(strides, q, level as nat);
            let ghost base = q.ancestor(start);
            let ghost less_before = less_specifics_vec;
            let ghost candidate_before = match_prefix_idx;
            proof {
                self.lemma_level_facts(q, level as nat);
            }
            let stride = self.store.get_stride_sizes()[level];
            let start_bit = stride_end;
            stride_end = stride_end + stride;
            let last_stride = search_pfx.get_len() < stride_end;
            let nibble_len = if last_stride {
                stride + search_pfx.get_len() - stride_end
            } else {
                stride
            };
            proof {
                lemma_path_of_nibble(
                    search_pfx.net.as_nat(),
                    w,
                    search_pfx.len as nat,
                    start,
                    nibble_len as nat,
                );
                lemma_path_of_truncated(search_pfx.net.as_nat(), w, search_pfx.len as nat, start);
                q.lemma_ancestor_extend(start, nibble_len as nat);
                q.lemma_ancestor_self();
                lemma_longest_in_split(dom, q, 0, start, end);
                lemma_ancestors_in_split(dom, q, 0, start, end);
                if end < q.len {
                    lemma_longest_in_split(dom, q, 0, end, q.len);
                }
            }
            let nibble = AF::get_nibble(search_pfx.get_net(), start_bit, nibble_len);
            let found = Self::search_stride(
                &node,
                options,
                search_pfx,
                nibble,
                nibble_len,
                start_bit,
                &mut less_specifics_vec,
            );
            let base_id = StrideNodeId::new_with_cleaned_id(search_pfx.get_net(), start_bit);
            proof {
                if found.0.is_none() && end < q.len {
                    lemma_nothing_below(dom, q, end);
                }
                if less_before.is_some() {
                    let before = paths_of(less_before.unwrap()@);
                    assert(before + Seq::<Path>::empty() =~= before);
                }
            }
            match found {
                (Some(n), Some(pfx_idx)) => {
                    match_prefix_idx = Some(pfx_idx);
                    if last_stride {
                        break ;
                    }
                    node =
                    match self.store.retrieve_node_with_guard(n, guard) {
                        Some(next) => *next,
                        None => node,
                    };
                },
                (Some(n), None) => {
                    if last_stride {
                        break ;
                    }
                    node =
                    match self.store.retrieve_node_with_guard(n, guard) {
                        Some(next) => *next,
                        None => node,
                    };
                },
                (None, Some(pfx_idx)) => {
                    if options.include_more_specifics {
                        more_specifics_vec =
                        self.get_all_more_specifics_from_nibble(
                            &node,
                            nibble,
                            nibble_len,
                            base_id,
                        );
                        proof {
                            lemma_more_at_stop(dom, q, end, paths_of(more_specifics_vec.unwrap()@));
                        }
                    }
                    match_prefix_idx = Some(pfx_idx);
                    proof {
                        assert(stop_level(dom, strides, q, level as nat) == level);
                    }
                    break ;
                },
                (None, None) => {
                    match options.match_type {
                        MatchType::EmptyMatch => {
                            if options.include_more_specifics {
                                more_specifics_vec =
                                self.get_all_more_specifics_from_nibble(
                                    &node,
                                    nibble,
                                    nibble_len,
                                    base_id,
                                );
                                proof {
                                    lemma_more_at_stop(
                                        dom,
                                        q,
                                        end,
                                        paths_of(more_specifics_vec.unwrap()@),
                                    );
                                }
                            }
                            match_prefix_idx = None;
                        },
                        MatchType::LongestMatch => {},
                        MatchType::ExactMatch => {
                            match_prefix_idx = None;
                        },
                    }
                    proof {
                        assert(stop_level(dom, strides, q, level as nat) == level);
                    }
                    break ;
                },
            }
            level += 1;
        }

        // The records of what the walk found.
        proof {
            lemma_longest_in(dom, q, 0, q.len);
            let s = stop_level(dom, strides, q, 0);
            lemma_longest_in(dom, q, stride_start(strides, s), seen_end(strides, q, s));
            lemma_ancestors_in(dom, q, 0, q.len);
            lemma_boundary_ancestors(dom, strides, q, s);
        }
        let mut match_type = MatchType::EmptyMatch;
        let mut prefix: Option<PrefixId<AF>> = None;
        let mut prefix_meta: Option<&'a M> = None;
        if let Some(pfx_idx) = match_prefix_idx {
            match self.store.retrieve_prefix_with_guard(pfx_idx, guard) {
                Some(found) => {
                    prefix = Some(pfx_idx);
                    prefix_meta = Some(&found.0.meta);
                    match_type =
                    if found.0.len == search_pfx.get_len() {
                        MatchType::ExactMatch
                    } else {
                        MatchType::LongestMatch
                    };
                },
                None => {},
            }
        }
        let less_specifics = match less_specifics_vec {
            Some(v) => {
                proof {
                    let paths = paths_of(v@);
                    assert forall|i: int| 0 <= i < v@.len() implies self@.contains_key(
                        #[trigger] v@[i]@,
                    ) by {
                        assert(paths[i] == v@[i]@);
                    }
                }
                Some(self.resolve(&v))
            },
            None => None,
        };
        let more_specifics = match more_specifics_vec {
            Some(v) => {
                proof {
                    let paths = paths_of(v@);
                    assert forall|i: int| 0 <= i < v@.len() implies self@.contains_key(
                        #[trigger] v@[i]@,
                    ) by {
                        assert(paths[i] == v@[i]@);
                        assert(paths.contains(paths[i]));
                    }
                }
                Some(self.resolve(&v))
            },
            None => None,
        };
        let r = QueryResult { prefix, prefix_meta, match_type, less_specifics, more_specifics };
        proof {
            assert(self@.dom() =~= dom);
            if r.more_specifics.is_some() {
                let more = r.more_specifics.unwrap();
                assert(more@.len() == record_paths(more@).len());
            }
        }
        r
    }

    /// The records of the store for a list of prefixes that are in it.
    pub fn resolve<'a>(&'a self, ids: &Vec<PrefixId<AF>>) -> (r: RecordSet<'a, AF, M>)
        requires
            self.wf(),
            all_wf(ids@),
            forall|i: int| 0 <= i < ids@.len() ==> self@.contains_key(#[trigger] ids@[i]@),
        ensures
            records_of(r@, paths_of(ids@), self@),
    {
        let mut records: Vec<PublicPrefixRecord<'a, AF, M>> = Vec::new();
        let mut i: usize = 0;
        while i < ids.len()
            invariant
                self.wf(),
                all_wf(ids@),
                forall|j: int| 0 <= j < ids@.len() ==> self@.contains_key(#[trigger] ids@[j]@),
                i <= ids@.len(),
                records@.len() == i,
                forall|j: int|
                    0 <= j < i ==> {
                        &&& (#[trigger] records@[j]).prefix == ids@[j]
                        &&& *records@[j].meta == self@[ids@[j]@]
                    },
            decreases ids.len() - i,
        {
            let id = ids[i];
            proof {
                assert(self@.contains_key(ids@[i as int]@));
            }
            match self.store.retrieve_prefix(id) {
                Some(stored) => {
                    records.push(PublicPrefixRecord::new(id, &stored.record.meta));
                },
                None => {},
            }
            i += 1;
        }
        let r = RecordSet { records };
        proof {
            assert(record_paths(r@) =~= paths_of(ids@));
        }
        r
    }
}

} // verus!
