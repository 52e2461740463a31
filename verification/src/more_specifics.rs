//! The search for the prefixes below a place of the trie.
//!
//! The search goes down the trie level by level. From the nodes of one level
//! it takes the prefixes that they hold, shorter ones first and those of one
//! length from the lowest to the highest, and the children in which it goes
//! on. What it returns is therefore in ascending order of length, and of
//! number within a length.

use vstd::prelude::*;
use vstd::arithmetic::power2::pow2;
use crate::af::AddressFamily;
use crate::consistency::{in_node, below_node, lemma_inv_basics, lemma_inv_node, lemma_inv_node_at,
    lemma_inv_prefix, lemma_path_nodes};
use crate::levels::{stride_start, is_level, level_at, lemma_stride_start_bound,
    lemma_stride_start_grows, lemma_level_unique};
use crate::model::{is_more_specific_in, lists_more_specifics};
use crate::node::TreeBitMapNode;
use crate::node_id::{PrefixId, StrideNodeId, paths_of, all_wf, node_paths_of, all_nodes_wf,
    lemma_paths_of_push, lemma_paths_of_concat, lemma_node_paths_of_concat};
use crate::path::{Path, ascending, lenwise_ascending, lemma_concat_ascending,
    lemma_concat_lenwise, lemma_concat_contains, lemma_take_step, lemma_take_ends,
    lemma_push_ascending};
use crate::prefix_record::MergeUpdate;
use crate::tree::TreeBitMap;

verus! {

/// `list` holds the nodes of paths of length `len` that lie at or below
/// `q`, in ascending order.
pub open spec fn frontier_at(
    nodes: Map<Path, TreeBitMapNode>,
    q: Path,
    len: nat,
    list: Seq<Path>,
) -> bool {
    &&& ascending(list)
    &&& forall|c: Path| #[trigger]
        list.contains(c) <==> nodes.contains_key(c) && c.len == len && q.covers(c)
}

/// `list` holds the prefixes below `q` of up to `len` bits, in ascending
/// order.
pub open spec fn collected_upto(dom: Set<Path>, q: Path, len: nat, list: Seq<Path>) -> bool {
    &&& ascending(list)
    &&& forall|p: Path| #[trigger] list.contains(p) <==> is_more_specific_in(dom, q, p) && p.len <= len
}

/// `list` holds the prefixes below `q` of more than `len` and up to
/// `len + stride` bits, those of one length in ascending order.
pub open spec fn level_listed(dom: Set<Path>, q: Path, len: nat, stride: nat, list: Seq<Path>) -> bool {
    &&& lenwise_ascending(list)
    &&& forall|p: Path| #[trigger]
        list.contains(p) <==> is_more_specific_in(dom, q, p) && len < p.len <= len + stride
}

impl<AF: AddressFamily, M: MergeUpdate> TreeBitMap<AF, M> {
    /// The level whose nodes have identifiers of length `len`, if there is
    /// one.
    pub fn get_level_for_len(&self, len: u8) -> (r: Option<usize>)
        requires
            self.wf(),
        ensures
            match r {
                Some(i) => is_level(self.strides(), i as nat, len as nat),
                None => forall|i: nat| !is_level(self.strides(), i, len as nat),
            },
    {
        let strides = self.store.get_stride_sizes();
        let ghost s = self.strides();
        let ghost w = AF::width();
        proof {
            lemma_inv_basics(
                self.store.nodes(),
                self.store.prefixes().dom(),
                self.store.prefixes().dom(),
                s,
                w,
            );
            AF::lemma_width();
        }
        let mut start: u8 = 0;
        let mut i: usize = 0;
        while i < strides.len()
            invariant
                strides@ == s,
                s == self.strides(),
                crate::levels::valid_strides(s, w),
                w <= 128,
                i <= s.len(),
                start == stride_start(s, i as nat),
                forall|j: nat| j < i ==> !is_level(s, j, len as nat),
            decreases strides.len() - i,
        {
            proof {
                lemma_stride_start_bound(s, w, i as nat);
            }
            if start == len {
                return Some(i);
            }
            start = start + strides[i];
            i += 1;
        }
        None
    }

    /// The prefixes that the nodes of one level hold, and the children of
    /// those nodes, for the nodes at or below `q`.
    fn collect_level(
        &self,
        frontier: &Vec<StrideNodeId<AF>>,
        level: usize,
        Ghost(q): Ghost<Path>,
    ) -> (r: (Vec<StrideNodeId<AF>>, Vec<PrefixId<AF>>))
        requires
            self.wf(),
            level < self.strides().len(),
            all_nodes_wf(frontier@),
            frontier_at(
                self.store.nodes(),
                q,
                stride_start(self.strides(), level as nat),
                node_paths_of(frontier@),
            ),
            q.len <= stride_start(self.strides(), level as nat),
        ensures
            all_nodes_wf(r.0@),
            frontier_at(
                self.store.nodes(),
                q,
                stride_start(self.strides(), (level + 1) as nat),
                node_paths_of(r.0@),
            ),
            all_wf(r.1@),
            level_listed(
                self@.dom(),
                q,
                stride_start(self.strides(), level as nat),
                self.strides()[level as int] as nat,
                paths_of(r.1@),
            ),
    {
        let ghost nodes = self.store.nodes();
        let ghost dom = self.store.prefixes().dom();
        let ghost strides = self.strides();
        let ghost w = AF::width();
        let ghost f = node_paths_of(frontier@);
        let ghost start = stride_start(strides, level as nat);
        let ghost stride = strides[level as int];
        let ghost end = start + stride;
        proof {
            lemma_inv_basics(nodes, dom, dom, strides, w);
            lemma_stride_start_bound(strides, w, level as nat);
            assert(self@.dom() =~= dom);
        }
        let mut next_frontier: Vec<StrideNodeId<AF>> = Vec::new();
        let mut level_pfxs: Vec<PrefixId<AF>> = Vec::new();
        let mut j: usize = 0;
        proof {
            lemma_take_ends(f);
            assert(node_paths_of(next_frontier@) =~= Seq::<Path>::empty());
            assert(paths_of(level_pfxs@) =~= Seq::<Path>::empty());
        }
        while j < frontier.len()
            invariant
                self.wf(),
                nodes == self.store.nodes(),
                dom == self.store.prefixes().dom(),
                strides == self.strides(),
                w == AF::width(),
                level < strides.len(),
                start == stride_start(strides, level as nat),
                stride == strides[level as int],
                end == start + stride,
                end == stride_start(strides, (level + 1) as nat),
                end <= w,
                q.len <= start,
                f == node_paths_of(frontier@),
                f.len() == frontier@.len(),
                all_nodes_wf(frontier@),
                frontier_at(nodes, q, start, f),
                j <= frontier@.len(),
                all_nodes_wf(next_frontier@),
                ascending(node_paths_of(next_frontier@)),
                forall|c: Path| #[trigger]
                    node_paths_of(next_frontier@).contains(c) <==> nodes.contains_key(c) && c.len
                        == end && f.take(j as int).contains(c.ancestor(start)),
                all_wf(level_pfxs@),
                lenwise_ascending(paths_of(level_pfxs@)),
                forall|p: Path| #[trigger]
                    paths_of(level_pfxs@).contains(p) <==> dom.contains(p) && start < p.len <= end
                        && f.take(j as int).contains(p.ancestor(start)),
            decreases frontier.len() - j,
        {
            let id = frontier[j];
            let ghost n = id@;
            let ghost old_next = node_paths_of(next_frontier@);
            let ghost old_pfxs = paths_of(level_pfxs@);
            proof {
                assert(f[j as int] == n);
                assert(f.contains(n));
                lemma_take_step(f, j as int);
                lemma_inv_node_at(nodes, dom, dom, strides, w, level as nat, n);
                n.lemma_extend_nothing();
                vstd::arithmetic::power2::lemma2_to64();
            }
            match self.store.retrieve_node(id) {
                Some(node) => {
                    let (mut children, mut prefixes) = node.add_more_specifics_at(0, 0, id);
                    proof {
                        let cs = node_paths_of(children@);
                        let ps = paths_of(prefixes@);
                        lemma_node_paths_of_concat(next_frontier@, children@);
                        lemma_paths_of_concat(level_pfxs@, prefixes@);
                        lemma_concat_contains(old_next, cs);
                        lemma_concat_contains(old_pfxs, ps);
                        assert forall|i: int, k: int|
                            0 <= i < old_next.len() && 0 <= k < cs.len() implies (
                        #[trigger] old_next[i]).precedes(#[trigger] cs[k]) by {
                            let a = old_next[i];
                            let b = cs[k];
                            assert(old_next.contains(a));
                            assert(cs.contains(b));
                            assert(node.holds_child(n, b));
                            a.lemma_under_ordered(b, start);
                        }
                        lemma_concat_ascending(old_next, cs);
                        assert forall|i: int, k: int|
                            0 <= i < old_pfxs.len() && 0 <= k < ps.len() && (
                            #[trigger] old_pfxs[i]).len == (#[trigger] ps[k]).len implies old_pfxs[i].value
                            < ps[k].value by {
                            let a = old_pfxs[i];
                            let b = ps[k];
                            assert(old_pfxs.contains(a));
                            assert(ps.contains(b));
                            assert(node.holds_prefix(n, b));
                            a.lemma_under_ordered(b, start);
                        }
                        lemma_concat_lenwise(old_pfxs, ps);
                        assert forall|c: Path| #[trigger]
                            (old_next + cs).contains(c) <==> nodes.contains_key(c) && c.len == end
                                && f.take(j + 1).contains(c.ancestor(start)) by {
                            if old_next.contains(c) {
                            }
                            if cs.contains(c) {
                            }
                            if nodes.contains_key(c) && c.len == end && c.ancestor(start) == n {
                                assert(below_node(n, node.stride, c));
                                assert(node.holds_child(n, c));
                            }
                        }
                        assert forall|p: Path| #[trigger]
                            (old_pfxs + ps).contains(p) <==> dom.contains(p) && start < p.len <= end
                                && f.take(j + 1).contains(p.ancestor(start)) by {
                            if old_pfxs.contains(p) {
                            }
                            if ps.contains(p) {
                            }
                            if dom.contains(p) && start < p.len <= end && p.ancestor(start) == n {
                                assert(in_node(n, node.stride, p));
                                assert(node.holds_prefix(n, p));
                            }
                        }
                    }
                    next_frontier.append(&mut children);
                    level_pfxs.append(&mut prefixes);
                },
                None => {},
            }
            j += 1;
        }
        proof {
            lemma_take_ends(f);
            let next = node_paths_of(next_frontier@);
            let lp = paths_of(level_pfxs@);
            assert(f.take(f.len() as int) =~= f);
            assert forall|c: Path| #[trigger]
                next.contains(c) <==> nodes.contains_key(c) && c.len == end && q.covers(c) by {
                if nodes.contains_key(c) && c.len == end {
                    q.lemma_covers_ancestor(c, start);
                    lemma_inv_node(nodes, dom, dom, strides, w, c);
                    let i = level_at(strides, c.len);
                    if i < level + 1 {
                        lemma_stride_start_grows(strides, i, (level + 1) as nat);
                    } else if i > level + 1 {
                        lemma_stride_start_grows(strides, (level + 1) as nat, i);
                    }
                    assert(i == level + 1);
                    c.lemma_ancestor_wf(start);
                }
            }
            assert forall|p: Path| #[trigger]
                lp.contains(p) <==> is_more_specific_in(dom, q, p) && start < p.len <= end by {
                if dom.contains(p) && start < p.len <= end {
                    q.lemma_covers_ancestor(p, start);
                    lemma_path_nodes(nodes, dom, dom, strides, w, p, level as nat);
                }
            }
        }
        (next_frontier, level_pfxs)
    }

    /// Adds the prefixes of one level to those that were collected above
    /// it, the shorter ones first.
    fn append_by_length(
        msvec: &mut Vec<PrefixId<AF>>,
        level_pfxs: &Vec<PrefixId<AF>>,
        start: u8,
        stride: u8,
        Ghost(dom): Ghost<Set<Path>>,
        Ghost(q): Ghost<Path>,
    )
        requires
            all_wf(old(msvec)@),
            all_wf(level_pfxs@),
            start + stride <= 128,
            collected_upto(dom, q, start as nat, paths_of(old(msvec)@)),
            level_listed(dom, q, start as nat, stride as nat, paths_of(level_pfxs@)),
        ensures
            all_wf(final(msvec)@),
            collected_upto(dom, q, (start + stride) as nat, paths_of(final(msvec)@)),
    {
        let ghost lp = paths_of(level_pfxs@);
        let mut k: u8 = 1;
        while k <= stride
            invariant
                1 <= k <= stride + 1,
                start + stride <= 128,
                lp == paths_of(level_pfxs@),
                all_wf(level_pfxs@),
                level_listed(dom, q, start as nat, stride as nat, lp),
                all_wf(msvec@),
                ascending(paths_of(msvec@)),
                forall|p: Path| #[trigger]
                    paths_of(msvec@).contains(p) <==> is_more_specific_in(dom, q, p) && p.len < start
                        + k,
            decreases stride + 1 - k,
        {
            let mut a: usize = 0;
            proof {
                lemma_take_ends(lp);
            }
            while a < level_pfxs.len()
                invariant
                    1 <= k <= stride,
                    start + stride <= 128,
                    lp == paths_of(level_pfxs@),
                    lp.len() == level_pfxs@.len(),
                    a <= level_pfxs@.len(),
                    all_wf(level_pfxs@),
                    level_listed(dom, q, start as nat, stride as nat, lp),
                    all_wf(msvec@),
                    ascending(paths_of(msvec@)),
                    forall|p: Path| #[trigger]
                        paths_of(msvec@).contains(p) <==> is_more_specific_in(dom, q, p) && (p.len
                            < start + k || (p.len == start + k && lp.take(a as int).contains(p))),
                decreases level_pfxs.len() - a,
            {
                let x = level_pfxs[a];
                let ghost before = paths_of(msvec@);
                proof {
                    assert(lp[a as int] == x@);
                    assert(lp.contains(x@));
                    lemma_take_step(lp, a as int);
                }
                if x.len == start + k {
                    proof {
                        assert forall|i: int| 0 <= i < before.len() implies (
                        #[trigger] before[i]).precedes(x@) by {
                            assert(before.contains(before[i]));
                        }
                        lemma_paths_of_push(msvec@, x);
                        lemma_push_ascending(before, x@);
                    }
                    msvec.push(x);
                }
                a += 1;
                proof {
                    let after = paths_of(msvec@);
                    assert forall|p: Path| #[trigger]
                        after.contains(p) <==> is_more_specific_in(dom, q, p) && (p.len < start + k
                            || (p.len == start + k && lp.take(a as int).contains(p))) by {
                        if before.contains(p) {
                        }
                        if lp.take(a - 1).contains(p) {
                        }
                    }
                }
            }
            proof {
                lemma_take_ends(lp);
                let after = paths_of(msvec@);
                assert forall|p: Path| #[trigger]
                    after.contains(p) <==> is_more_specific_in(dom, q, p) && p.len < start + k + 1 by {
                    if lp.contains(p) {
                    }
                }
            }
            k += 1;
        }
    }

    /// The prefixes in the store below the place of `nibble` in
    /// `current_node`, the node with the identifier `base_prefix`: those
    /// that the node holds there, and those of the nodes below it. They are
    /// returned in ascending order.
    pub fn get_all_more_specifics_from_nibble(
        &self,
        current_node: &TreeBitMapNode,
        nibble: u32,
        nibble_len: u8,
        base_prefix: StrideNodeId<AF>,
    ) -> (r: Option<Vec<PrefixId<AF>>>)
        requires
            self.wf(),
            base_prefix.wf(),
            self.store.nodes().contains_key(base_prefix@),
            *current_node == self.store.nodes()[base_prefix@],
            nibble_len <= current_node.stride,
            (nibble as nat) < pow2(nibble_len as nat),
        ensures
            r matches Some(v) && all_wf(v@) && lists_more_specifics(
                paths_of(v@),
                self@.dom(),
                base_prefix@.extend(nibble as nat, nibble_len as nat),
            ),
    {
        let ghost nodes = self.store.nodes();
        let ghost dom = self.store.prefixes().dom();
        let ghost strides = self.strides();
        let ghost w = AF::width();
        let ghost base = base_prefix@;
        let ghost q = base.extend(nibble as nat, nibble_len as nat);
        proof {
            lemma_inv_basics(nodes, dom, dom, strides, w);
            lemma_inv_node(nodes, dom, dom, strides, w, base);
            AF::lemma_width();
            assert(self@.dom() =~= dom);
            base.lemma_extend_ancestor(nibble as nat, nibble_len as nat);
            base.lemma_extend_wf(nibble as nat, nibble_len as nat);
        }
        let ghost i0 = level_at(strides, base.len);
        proof {
            lemma_inv_node_at(nodes, dom, dom, strides, w, i0, base);
            lemma_stride_start_bound(strides, w, i0);
        }
        let levels = self.store.get_stride_sizes().len();
        let found = self.get_level_for_len(base_prefix.len);
        let mut level: usize = match found {
            Some(i) => {
                proof {
                    lemma_level_unique(strides, w, i as nat, i0, base.len);
                }
                i + 1
            },
            None => {
                return Some(Vec::new());
            },
        };
        let (children, local) = current_node.add_more_specifics_at(nibble, nibble_len, base_prefix);
        let mut frontier = children;
        let mut msvec = local;
        let mut start: u8 = base_prefix.len + current_node.stride;
        proof {
            let list = paths_of(msvec@);
            assert forall|p: Path| #[trigger]
                list.contains(p) <==> is_more_specific_in(dom, q, p) && p.len <= start by {
                if is_more_specific_in(dom, q, p) && p.len <= start {
                    q.lemma_covers_longer(p);
                    p.lemma_ancestor_ancestor(q.len, base.len);
                    assert(in_node(base, current_node.stride, p));
                }
                if list.contains(p) {
                    assert(current_node.holds_prefix(base, p));
                }
            }
            let f = node_paths_of(frontier@);
            assert forall|c: Path| #[trigger]
                f.contains(c) <==> nodes.contains_key(c) && c.len == start && q.covers(c) by {
                if nodes.contains_key(c) && c.len == start && q.covers(c) {
                    c.lemma_ancestor_ancestor(q.len, base.len);
                    assert(below_node(base, current_node.stride, c));
                }
                if f.contains(c) {
                    assert(current_node.holds_child(base, c));
                }
            }
        }
        while level < levels
            invariant
                self.wf(),
                nodes == self.store.nodes(),
                dom == self.store.prefixes().dom(),
                strides == self.strides(),
                w == AF::width(),
                w <= 128,
                crate::levels::valid_strides(strides, w),
                levels == strides.len(),
                1 <= level <= levels,
                start == stride_start(strides, level as nat),
                q.len <= start,
                all_nodes_wf(frontier@),
                frontier_at(nodes, q, start as nat, node_paths_of(frontier@)),
                all_wf(msvec@),
                collected_upto(dom, q, start as nat, paths_of(msvec@)),
            decreases levels - level,
        {
            proof {
                lemma_stride_start_bound(strides, w, level as nat);
                assert(self@.dom() =~= dom);
            }
            let stride = self.store.get_stride_sizes()[level];
            let (next_frontier, level_pfxs) = self.collect_level(&frontier, level, Ghost(q));
            Self::append_by_length(&mut msvec, &level_pfxs, start, stride, Ghost(dom), Ghost(q));
            frontier = next_frontier;
            start = start + stride;
            level += 1;
        }
        proof {
            let list = paths_of(msvec@);
            assert forall|p: Path| #[trigger] list.contains(p) <==> is_more_specific_in(dom, q, p) by {
                if dom.contains(p) {
                    lemma_inv_prefix(nodes, dom, dom, strides, w, p);
                }
            }
        }
        Some(msvec)
    }
}

} // verus!
