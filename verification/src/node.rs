//! The node of the trie.
//!
//! A node holds two bitmaps and nothing else: one says which child nodes
//! exist below it, the other which prefixes exist within it. The identifiers
//! of those children and prefixes are computed from the identifier of the
//! node and the place of the bit, which is why the methods take the
//! identifier of the node as `base_prefix`.

use vstd::prelude::*;
use vstd::arithmetic::power2::{pow2, lemma_pow2_pos};
use crate::af::AddressFamily;
use crate::node_id::{PrefixId, StrideNodeId, lemma_path_of_truncated, lemma_path_of_nibble,
    paths_of, all_wf, lemma_paths_of_push, node_paths_of, all_nodes_wf, lemma_node_paths_of_push};
use crate::path::{Path, ascending, in_span, lemma_span_bound, lemma_push_ascending};
use crate::model::{longest_in, ancestors_in};
use crate::stride::{valid_stride, pfx_shift, ptr_shift, bit_is_set, ptr_bit_is_set, get_bit_pos,
    get_ptr_bit_pos, lemma_set_bit, lemma_set_ptr_bit, lemma_layout, lemma_layout_distinct,
    lemma_empty_bitmaps, pow2_u32};

verus! {

/// A node of the trie: its stride and its two bitmaps.
#[derive(Clone, Copy, Debug, PartialEq, Eq)]
pub struct TreeBitMapNode {
    /// The number of bits of an address that the node consumes.
    pub stride: u8,
    /// One bit for each child node that exists.
    pub ptrbitarr: u32,
    /// One bit for each prefix that exists within the node.
    pub pfxbitarr: u64,
}

/// What looking at a place in a node for an insertion found or made.
pub enum NewNodeOrIndex<AF: AddressFamily> {
    /// There was no child at the place; its bit is now set, and this is the
    /// empty node to store there.
    NewNode(TreeBitMapNode),
    /// There is a child at the place, with this identifier.
    ExistingNode(StrideNodeId<AF>),
    /// There was no prefix at the place; its bit is now set.
    NewPrefix,
    /// There is a prefix at the place.
    ExistingPrefix,
}

impl TreeBitMapNode {
    /// The stride is one that a node can have.
    pub open spec fn wf(self) -> bool {
        valid_stride(self.stride)
    }

    /// Whether the node has the prefix that `nibble` of length `len` leads
    /// to.
    pub open spec fn has_pfx(self, nibble: nat, len: nat) -> bool {
        bit_is_set(self.pfxbitarr, pfx_shift(self.stride, nibble, len))
    }

    /// Whether the node has the child that `nibble`, of the length of the
    /// stride, leads to.
    pub open spec fn has_ptr(self, nibble: nat) -> bool {
        ptr_bit_is_set(self.ptrbitarr, ptr_shift(self.stride, nibble))
    }

    /// Whether the node, whose own path is `base`, has the prefix `p`.
    pub open spec fn holds_prefix(self, base: Path, p: Path) -> bool {
        &&& base.len < p.len <= base.len + self.stride
        &&& p.ancestor(base.len) == base
        &&& self.has_pfx(p.nibble(base.len, (p.len - base.len) as nat), (p.len - base.len) as nat)
    }

    /// Whether the node, whose own path is `base`, has the child `c`.
    pub open spec fn holds_child(self, base: Path, c: Path) -> bool {
        &&& c.len == base.len + self.stride
        &&& c.ancestor(base.len) == base
        &&& self.has_ptr(c.nibble(base.len, self.stride as nat))
    }

    /// The prefixes that the node has, if its own path is `base`.
    pub open spec fn prefix_set(self, base: Path) -> Set<Path> {
        Set::new(|p: Path| self.holds_prefix(base, p))
    }

    /// The children that the node has, if its own path is `base`.
    pub open spec fn child_set(self, base: Path) -> Set<Path> {
        Set::new(|c: Path| self.holds_child(base, c))
    }

    /// The node of the given stride that has no child and no prefix.
    pub open spec fn empty(stride: u8) -> TreeBitMapNode {
        TreeBitMapNode { stride, ptrbitarr: 0, pfxbitarr: 0 }
    }

    /// An empty node of the given stride.
    pub fn new(stride: u8) -> (r: Self)
        requires
            valid_stride(stride),
        ensures
            r == Self::empty(stride),
            r.stride == stride,
            r.ptrbitarr == 0,
            r.pfxbitarr == 0,
            forall|base: Path, p: Path| !r.holds_prefix(base, p),
            forall|base: Path, c: Path| !r.holds_child(base, c),
    {
        let r = TreeBitMapNode { stride, ptrbitarr: 0, pfxbitarr: 0 };
        proof {
            assert forall|base: Path, p: Path| !r.holds_prefix(base, p) by {
                let k = (p.len - base.len) as nat;
                lemma_empty_bitmaps(pfx_shift(stride, p.nibble(base.len, k), k));
            }
            assert forall|base: Path, c: Path| !r.holds_child(base, c) by {
                lemma_empty_bitmaps(ptr_shift(stride, c.nibble(base.len, stride as nat)));
            }
        }
        r
    }

    /// Replaces the child bitmap by `new` if it is `current`, and says what
    /// it was if it is not.
    fn compare_exchange_ptrbitarr(&mut self, current: u32, new: u32) -> (r: Result<u32, u32>)
        ensures
            final(self).stride == old(self).stride,
            final(self).pfxbitarr == old(self).pfxbitarr,
            old(self).ptrbitarr == current ==> r == Ok::<u32, u32>(current)
                && final(self).ptrbitarr == new,
            old(self).ptrbitarr != current ==> r == Err::<u32, u32>(old(self).ptrbitarr)
                && final(self).ptrbitarr == old(self).ptrbitarr,
    {
        if self.ptrbitarr == current {
            self.ptrbitarr = new;
            Ok(current)
        } else {
            Err(self.ptrbitarr)
        }
    }

    /// Replaces the prefix bitmap by `new` if it is `current`, and says what
    /// it was if it is not.
    fn compare_exchange_pfxbitarr(&mut self, current: u64, new: u64) -> (r: Result<u64, u64>)
        ensures
            final(self).stride == old(self).stride,
            final(self).ptrbitarr == old(self).ptrbitarr,
            old(self).pfxbitarr == current ==> r == Ok::<u64, u64>(current)
                && final(self).pfxbitarr == new,
            old(self).pfxbitarr != current ==> r == Err::<u64, u64>(old(self).pfxbitarr)
                && final(self).pfxbitarr == old(self).pfxbitarr,
    {
        if self.pfxbitarr == current {
            self.pfxbitarr = new;
            Ok(current)
        } else {
            Err(self.pfxbitarr)
        }
    }

    /// Looks at the place of `nibble` for an insertion that passes through
    /// this node, or ends in it if `is_last_stride`.
    ///
    /// Where the insertion passes through, the place is that of a child: if
    /// there is none, its bit is set and an empty node of the next stride is
    /// returned for the caller to store. Where the insertion ends, the place
    /// is that of a prefix, and its bit is set if it was not.
    pub fn eval_node_or_prefix_at<AF: AddressFamily>(
        &mut self,
        nibble: u32,
        nibble_len: u8,
        base_prefix: StrideNodeId<AF>,
        stride_len: u8,
        next_stride: Option<&u8>,
        is_last_stride: bool,
    ) -> (r: NewNodeOrIndex<AF>)
        requires
            old(self).wf(),
            stride_len == old(self).stride,
            1 <= nibble_len <= stride_len,
            (nibble as nat) < pow2(nibble_len as nat),
            base_prefix.wf(),
            base_prefix.len + stride_len <= AF::width(),
            !is_last_stride ==> nibble_len == stride_len && next_stride.is_some() && valid_stride(
                *next_stride.unwrap(),
            ),
        ensures
            final(self).stride == old(self).stride,
            (r is ExistingPrefix || r is ExistingNode) ==> *final(self) == *old(self),
            is_last_stride ==> {
                &&& final(self).ptrbitarr == old(self).ptrbitarr
                &&& final(self).pfxbitarr == if old(self).has_pfx(nibble as nat, nibble_len as nat) {
                    old(self).pfxbitarr
                } else {
                    old(self).pfxbitarr | (1u64 << (pfx_shift(
                        old(self).stride,
                        nibble as nat,
                        nibble_len as nat,
                    ) as u64))
                }
                &&& r == if old(self).has_pfx(nibble as nat, nibble_len as nat) {
                    NewNodeOrIndex::<AF>::ExistingPrefix
                } else {
                    NewNodeOrIndex::<AF>::NewPrefix
                }
                &&& forall|n: nat, k: nat|
                    k <= stride_len && n < pow2(k) ==> #[trigger] final(self).has_pfx(n, k)
                        == (old(self).has_pfx(n, k) || (n == nibble && k == nibble_len))
            },
            !is_last_stride ==> {
                &&& final(self).pfxbitarr == old(self).pfxbitarr
                &&& final(self).ptrbitarr == if old(self).has_ptr(nibble as nat) {
                    old(self).ptrbitarr
                } else {
                    old(self).ptrbitarr | (1u32 << (ptr_shift(old(self).stride, nibble as nat) as u32))
                }
                &&& match r {
                    NewNodeOrIndex::NewNode(node) => {
                        &&& !old(self).has_ptr(nibble as nat)
                        &&& node.stride == *next_stride.unwrap()
                        &&& node.ptrbitarr == 0
                        &&& node.pfxbitarr == 0
                    },
                    NewNodeOrIndex::ExistingNode(id) => {
                        &&& old(self).has_ptr(nibble as nat)
                        &&& id.wf()
                        &&& id@ == base_prefix@.extend(nibble as nat, stride_len as nat)
                    },
                    _ => false,
                }
                &&& forall|n: nat|
                    n < pow2(stride_len as nat) ==> #[trigger] final(self).has_ptr(n)
                        == (old(self).has_ptr(n) || n == nibble)
            },
    {
        let ptrbitarr = self.ptrbitarr;
        let pfxbitarr = self.pfxbitarr;

        if !is_last_stride {
            let bit_pos = get_ptr_bit_pos(self.stride, nibble);
            if ptrbitarr & bit_pos == 0 {
                let new_node = TreeBitMapNode::new(*next_stride.unwrap());

                // Set the bit, starting over from the value found if the
                // bitmap is no longer the one that was read.
                let mut a_ptrbitarr = self.compare_exchange_ptrbitarr(ptrbitarr, bit_pos | ptrbitarr);
                loop
                    invariant
                        self.stride == old(self).stride,
                        self.pfxbitarr == old(self).pfxbitarr,
                        match a_ptrbitarr {
                            Ok(_) => self.ptrbitarr == bit_pos | old(self).ptrbitarr,
                            Err(newer) => newer == self.ptrbitarr && self.ptrbitarr
                                == old(self).ptrbitarr,
                        },
                    ensures
                        self.ptrbitarr == bit_pos | old(self).ptrbitarr,
                    decreases
                            (if a_ptrbitarr.is_err() {
                                1int
                            } else {
                                0int
                            }),
                {
                    match a_ptrbitarr {
                        Ok(_) => {
                            break ;
                        },
                        Err(newer_array) => {
                            a_ptrbitarr =
                            self.compare_exchange_ptrbitarr(newer_array, bit_pos | newer_array);
                        },
                    }
                }
                proof {
                    let s = ptr_shift(self.stride, nibble as nat);
                    lemma_layout(self.stride, nibble as nat, self.stride as nat);
                    assert(ptrbitarr | bit_pos == bit_pos | ptrbitarr) by (bit_vector);
                    assert forall|n: nat| n < pow2(stride_len as nat) implies #[trigger] self.has_ptr(
                        n,
                    ) == (old(self).has_ptr(n) || n == nibble) by {
                        let t = ptr_shift(self.stride, n);
                        lemma_layout(self.stride, n, self.stride as nat);
                        lemma_set_ptr_bit(old(self).ptrbitarr, s as u32, t as u32);
                    }
                }
                return NewNodeOrIndex::NewNode(new_node);
            }
            proof {
                assert forall|n: nat| n < pow2(stride_len as nat) implies #[trigger] self.has_ptr(n)
                    == (old(self).has_ptr(n) || n == nibble) by {}
            }
            NewNodeOrIndex::ExistingNode(base_prefix.add_nibble(nibble, stride_len))
        } else {
            let bit_pos = get_bit_pos(self.stride, nibble, nibble_len);
            if pfxbitarr & bit_pos == 0 {
                let mut a_pfxbitarr = self.compare_exchange_pfxbitarr(pfxbitarr, bit_pos | pfxbitarr);
                loop
                    invariant
                        self.stride == old(self).stride,
                        self.ptrbitarr == old(self).ptrbitarr,
                        match a_pfxbitarr {
                            Ok(_) => self.pfxbitarr == bit_pos | old(self).pfxbitarr,
                            Err(newer) => newer == self.pfxbitarr && self.pfxbitarr
                                == old(self).pfxbitarr,
                        },
                    ensures
                        self.pfxbitarr == bit_pos | old(self).pfxbitarr,
                    decreases
                            (if a_pfxbitarr.is_err() {
                                1int
                            } else {
                                0int
                            }),
                {
                    match a_pfxbitarr {
                        Ok(_) => {
                            break ;
                        },
                        Err(newer_array) => {
                            a_pfxbitarr =
                            self.compare_exchange_pfxbitarr(newer_array, bit_pos | newer_array);
                        },
                    }
                }
                proof {
                    let s = pfx_shift(self.stride, nibble as nat, nibble_len as nat);
                    lemma_layout(self.stride, nibble as nat, nibble_len as nat);
                    assert(pfxbitarr | bit_pos == bit_pos | pfxbitarr) by (bit_vector);
                    assert forall|n: nat, k: nat|
                        k <= stride_len && n < pow2(k) implies #[trigger] self.has_pfx(n, k) == (
                    old(self).has_pfx(n, k) || (n == nibble && k == nibble_len)) by {
                        let t = pfx_shift(self.stride, n, k);
                        lemma_layout(self.stride, n, k);
                        lemma_set_bit(old(self).pfxbitarr, s as u64, t as u64);
                        if s == t {
                            lemma_layout_distinct(
                                self.stride,
                                nibble as nat,
                                nibble_len as nat,
                                n,
                                k,
                            );
                        }
                    }
                }
                return NewNodeOrIndex::NewPrefix;
            }
            proof {
                assert forall|n: nat, k: nat|
                    k <= stride_len && n < pow2(k) implies #[trigger] self.has_pfx(n, k) == (
                old(self).has_pfx(n, k) || (n == nibble && k == nibble_len)) by {}
            }
            NewNodeOrIndex::ExistingPrefix
        }
    }

    /// Whether the node has an ancestor of `q` is a matter of one bit.
    pub proof fn lemma_holds_ancestor(self, q: Path, start: nat, k: nat)
        requires
            1 <= k <= self.stride,
            start + k <= q.len,
        ensures
            q.nibble(start, k) < pow2(k),
            self.holds_prefix(q.ancestor(start), q.ancestor(start + k)) == self.has_pfx(
                q.nibble(start, k),
                k,
            ),
            k == self.stride ==> self.holds_child(q.ancestor(start), q.ancestor(start + k))
                == self.has_ptr(q.nibble(start, k)),
    {
        q.lemma_ancestor_extend(start, k);
        q.lemma_ancestor_ancestor(start + k, start);
        q.lemma_ancestor_nibble(start + k, start, k);
    }

    /// Whether the node has what a nibble leads to is a matter of one bit.
    pub proof fn lemma_holds_extended(self, base: Path, nibble: nat, k: nat)
        requires
            1 <= k <= self.stride,
            nibble < pow2(k),
        ensures
            self.holds_prefix(base, base.extend(nibble, k)) == self.has_pfx(nibble, k),
            k == self.stride ==> self.holds_child(base, base.extend(nibble, k)) == self.has_ptr(
                nibble,
            ),
    {
        base.lemma_extend_ancestor(nibble, k);
        base.lemma_extend_nibble(nibble, k);
    }

    /// Looks for the longest prefix in this node that covers the search
    /// prefix, among those that end within the nibble, and for the child
    /// that the search goes on in.
    ///
    /// A prefix found is added to the less-specifics, where they are asked
    /// for, if the node has a child at the place of the prefix and the
    /// search prefix is longer than it.
    pub fn search_stride_for_longest_match_at<AF: AddressFamily>(
        &self,
        search_pfx: PrefixId<AF>,
        nibble: u32,
        nibble_len: u8,
        start_bit: u8,
        less_specifics_vec: &mut Option<Vec<PrefixId<AF>>>,
    ) -> (r: (Option<StrideNodeId<AF>>, Option<PrefixId<AF>>))
        requires
            self.wf(),
            search_pfx.wf(),
            1 <= nibble_len <= self.stride,
            start_bit + nibble_len <= search_pfx.len,
            nibble == search_pfx@.nibble(start_bit as nat, nibble_len as nat),
            *old(less_specifics_vec) matches Some(v) ==> all_wf(v@),
        ensures
            r.1.is_some() ==> r.1.unwrap().wf(),
            option_path(r.1) == longest_in(
                self.prefix_set(search_pfx@.ancestor(start_bit as nat)),
                search_pfx@,
                start_bit as nat,
                (start_bit + nibble_len) as nat,
            ),
            r.0.is_some() == (search_pfx.len > start_bit + nibble_len && self.holds_child(
                search_pfx@.ancestor(start_bit as nat),
                search_pfx@.ancestor((start_bit + nibble_len) as nat),
            )),
            r.0 matches Some(c) ==> c.wf() && c@ == search_pfx@.ancestor(
                (start_bit + nibble_len) as nat,
            ),
            old(less_specifics_vec).is_none() ==> final(less_specifics_vec).is_none(),
            *old(less_specifics_vec) matches Some(v) ==> final(less_specifics_vec).is_some()
                && all_wf(final(less_specifics_vec).unwrap()@) && paths_of(
                final(less_specifics_vec).unwrap()@,
            ) == if r.0.is_some() && self.holds_prefix(
                search_pfx@.ancestor(start_bit as nat),
                search_pfx@.ancestor((start_bit + nibble_len) as nat),
            ) {
                paths_of(v@).push(search_pfx@.ancestor((start_bit + nibble_len) as nat))
            } else {
                paths_of(v@)
            },
    {
        let pfxbitarr = self.pfxbitarr;
        let ptrbitarr = self.ptrbitarr;
        let mut found_pfx: Option<PrefixId<AF>> = None;
        let ghost q = search_pfx@;
        let ghost base = q.ancestor(start_bit as nat);
        proof {
            search_pfx.lemma_view_wf();
            self.lemma_holds_ancestor(q, start_bit as nat, nibble_len as nat);
        }
        let has_child = search_pfx.len > start_bit + nibble_len && nibble_len == self.stride && (
        ptrbitarr & get_ptr_bit_pos(self.stride, nibble)) != 0;

        let mut n_l: u8 = 1;
        while n_l <= nibble_len
            invariant
                self.wf(),
                search_pfx.wf(),
                q == search_pfx@,
                base == q.ancestor(start_bit as nat),
                1 <= n_l <= nibble_len + 1,
                1 <= nibble_len <= self.stride,
                start_bit + nibble_len <= search_pfx.len,
                search_pfx.len <= AF::width(),
                pfxbitarr == self.pfxbitarr,
                found_pfx.is_some() ==> found_pfx.unwrap().wf(),
                option_path(found_pfx) == longest_in(
                    self.prefix_set(base),
                    q,
                    start_bit as nat,
                    (start_bit + n_l - 1) as nat,
                ),
                has_child == (search_pfx.len > start_bit + nibble_len && self.holds_child(
                    base,
                    q.ancestor((start_bit + nibble_len) as nat),
                )),
                old(less_specifics_vec).is_none() ==> less_specifics_vec.is_none(),
                *old(less_specifics_vec) matches Some(v) ==> less_specifics_vec.is_some() && all_wf(
                    less_specifics_vec.unwrap()@,
                ) && paths_of(less_specifics_vec.unwrap()@) == if n_l == nibble_len + 1
                    && has_child && self.holds_prefix(
                    base,
                    q.ancestor((start_bit + nibble_len) as nat),
                ) {
                    paths_of(v@).push(q.ancestor((start_bit + nibble_len) as nat))
                } else {
                    paths_of(v@)
                },
            decreases nibble_len + 1 - n_l,
        {
            proof {
                lemma_path_of_nibble(
                    search_pfx.net.as_nat(),
                    AF::width(),
                    search_pfx.len as nat,
                    start_bit as nat,
                    n_l as nat,
                );
                self.lemma_holds_ancestor(q, start_bit as nat, n_l as nat);
            }
            let sub_nibble = AF::get_nibble(search_pfx.net, start_bit, n_l);
            let bit_pos = get_bit_pos(self.stride, sub_nibble, n_l);

            if pfxbitarr & bit_pos != 0 {
                let f_pfx = search_pfx.ancestor(start_bit + n_l);
                if n_l == nibble_len && has_child {
                    match less_specifics_vec {
                        Some(ls_vec) => {
                            proof {
                                lemma_paths_of_push(ls_vec@, f_pfx);
                            }
                            ls_vec.push(f_pfx);
                        },
                        None => {},
                    }
                }
                found_pfx = Some(f_pfx);
            }
            n_l += 1;
        }

        if !has_child {
            return (None, found_pfx);
        }
        proof {
            q.lemma_ancestor_extend(start_bit as nat, nibble_len as nat);
            lemma_path_of_truncated(
                search_pfx.net.as_nat(),
                AF::width(),
                search_pfx.len as nat,
                start_bit as nat,
            );
        }
        let base_prefix = StrideNodeId::new_with_cleaned_id(search_pfx.net, start_bit);
        (Some(base_prefix.add_nibble(nibble, nibble_len)), found_pfx)
    }

    /// Looks for the search prefix itself, if it ends within the nibble, and
    /// else for the child that the search goes on in.
    pub fn search_stride_for_exact_match_at<AF: AddressFamily>(
        &self,
        search_pfx: PrefixId<AF>,
        nibble: u32,
        nibble_len: u8,
        start_bit: u8,
        less_specifics_vec: &mut Option<Vec<PrefixId<AF>>>,
    ) -> (r: (Option<StrideNodeId<AF>>, Option<PrefixId<AF>>))
        requires
            self.wf(),
            search_pfx.wf(),
            1 <= nibble_len <= self.stride,
            start_bit + nibble_len <= search_pfx.len,
            nibble == search_pfx@.nibble(start_bit as nat, nibble_len as nat),
        ensures
            *final(less_specifics_vec) == *old(less_specifics_vec),
            r.1.is_some() == (search_pfx.len == start_bit + nibble_len && self.holds_prefix(
                search_pfx@.ancestor(start_bit as nat),
                search_pfx@,
            )),
            r.1 matches Some(p) ==> p.wf() && p@ == search_pfx@,
            r.0.is_some() == (search_pfx.len > start_bit + nibble_len && self.holds_child(
                search_pfx@.ancestor(start_bit as nat),
                search_pfx@.ancestor((start_bit + nibble_len) as nat),
            )),
            r.0 matches Some(c) ==> c.wf() && c@ == search_pfx@.ancestor(
                (start_bit + nibble_len) as nat,
            ),
    {
        let pfxbitarr = self.pfxbitarr;
        let ptrbitarr = self.ptrbitarr;
        let mut found_pfx: Option<PrefixId<AF>> = None;
        let mut found_child: Option<StrideNodeId<AF>> = None;
        proof {
            search_pfx.lemma_view_wf();
            self.lemma_holds_ancestor(search_pfx@, start_bit as nat, nibble_len as nat);
            search_pfx@.lemma_ancestor_self();
            lemma_path_of_truncated(
                search_pfx.net.as_nat(),
                AF::width(),
                search_pfx.len as nat,
                (start_bit + nibble_len) as nat,
            );
        }

        if search_pfx.len <= start_bit + nibble_len {
            let bit_pos = get_bit_pos(self.stride, nibble, nibble_len);
            if pfxbitarr & bit_pos != 0 {
                found_pfx = Some(search_pfx.ancestor(start_bit + nibble_len));
            }
        } else {
            if nibble_len == self.stride && (ptrbitarr & get_ptr_bit_pos(self.stride, nibble))
                != 0 {
                found_child =
                Some(StrideNodeId::new_with_cleaned_id(search_pfx.net, start_bit + nibble_len));
            }
        }

        (found_child, found_pfx)
    }

    /// Looks for the search prefix as an exact match does, and collects in
    /// the less-specifics every prefix of this node that covers the search
    /// prefix and ends within the nibble.
    ///
    /// Where the search ends in this node without finding the search prefix,
    /// the less-specifics are emptied: they are only given with a match.
    pub fn search_stride_for_exact_match_with_less_specifics_at<AF: AddressFamily>(
        &self,
        search_pfx: PrefixId<AF>,
        nibble: u32,
        nibble_len: u8,
        start_bit: u8,
        less_specifics_vec: &mut Option<Vec<PrefixId<AF>>>,
    ) -> (r: (Option<StrideNodeId<AF>>, Option<PrefixId<AF>>))
        requires
            self.wf(),
            search_pfx.wf(),
            1 <= nibble_len <= self.stride,
            start_bit + nibble_len <= search_pfx.len,
            nibble == search_pfx@.nibble(start_bit as nat, nibble_len as nat),
            *old(less_specifics_vec) matches Some(v) && all_wf(v@),
        ensures
            r.1.is_some() == (search_pfx.len == start_bit + nibble_len && self.holds_prefix(
                search_pfx@.ancestor(start_bit as nat),
                search_pfx@,
            )),
            r.1 matches Some(p) ==> p.wf() && p@ == search_pfx@,
            r.0.is_some() == (search_pfx.len > start_bit + nibble_len && self.holds_child(
                search_pfx@.ancestor(start_bit as nat),
                search_pfx@.ancestor((start_bit + nibble_len) as nat),
            )),
            r.0 matches Some(c) ==> c.wf() && c@ == search_pfx@.ancestor(
                (start_bit + nibble_len) as nat,
            ),
            *final(less_specifics_vec) matches Some(v) && all_wf(v@) && paths_of(v@) == if r.0.is_some()
                || r.1.is_some() {
                paths_of(old(less_specifics_vec).unwrap()@) + ancestors_in(
                    self.prefix_set(search_pfx@.ancestor(start_bit as nat)),
                    search_pfx@,
                    start_bit as nat,
                    (start_bit + nibble_len) as nat,
                )
            } else {
                Seq::<Path>::empty()
            },
    {
        let pfxbitarr = self.pfxbitarr;
        let ptrbitarr = self.ptrbitarr;
        let mut found_pfx: Option<PrefixId<AF>> = None;
        let mut found_child: Option<StrideNodeId<AF>> = None;
        let ghost q = search_pfx@;
        let ghost base = q.ancestor(start_bit as nat);
        let ghost before = paths_of(old(less_specifics_vec).unwrap()@);
        proof {
            search_pfx.lemma_view_wf();
            self.lemma_holds_ancestor(q, start_bit as nat, nibble_len as nat);
            q.lemma_ancestor_self();
            lemma_path_of_truncated(
                search_pfx.net.as_nat(),
                AF::width(),
                search_pfx.len as nat,
                (start_bit + nibble_len) as nat,
            );
            assert(before + Seq::<Path>::empty() =~= before);
        }

        match less_specifics_vec {
            Some(ls_vec) => {
                let mut n_l: u8 = 1;
                while n_l <= nibble_len
                    invariant
                        self.wf(),
                        search_pfx.wf(),
                        q == search_pfx@,
                        base == q.ancestor(start_bit as nat),
                        1 <= n_l <= nibble_len + 1,
                        1 <= nibble_len <= self.stride,
                        start_bit + nibble_len <= search_pfx.len,
                        search_pfx.len <= AF::width(),
                        pfxbitarr == self.pfxbitarr,
                        all_wf(ls_vec@),
                        paths_of(ls_vec@) == before + ancestors_in(
                            self.prefix_set(base),
                            q,
                            start_bit as nat,
                            (start_bit + n_l - 1) as nat,
                        ),
                    decreases nibble_len + 1 - n_l,
                {
                    proof {
                        lemma_path_of_nibble(
                            search_pfx.net.as_nat(),
                            AF::width(),
                            search_pfx.len as nat,
                            start_bit as nat,
                            n_l as nat,
                        );
                        self.lemma_holds_ancestor(q, start_bit as nat, n_l as nat);
                    }
                    let sub_nibble = AF::get_nibble(search_pfx.net, start_bit, n_l);
                    let bit_pos = get_bit_pos(self.stride, sub_nibble, n_l);

                    if pfxbitarr & bit_pos != 0 {
                        let f_pfx = search_pfx.ancestor(start_bit + n_l);
                        proof {
                            lemma_paths_of_push(ls_vec@, f_pfx);
                            let found = ancestors_in(
                                self.prefix_set(base),
                                q,
                                start_bit as nat,
                                (start_bit + n_l - 1) as nat,
                            );
                            assert((before + found).push(f_pfx@) =~= before + found.push(f_pfx@));
                        }
                        ls_vec.push(f_pfx);
                    }
                    n_l += 1;
                }

                if search_pfx.len <= start_bit + nibble_len {
                    let bit_pos = get_bit_pos(self.stride, nibble, nibble_len);
                    if pfxbitarr & bit_pos != 0 {
                        found_pfx = Some(search_pfx.ancestor(start_bit + nibble_len));
                    }
                } else {
                    if nibble_len == self.stride && (ptrbitarr & get_ptr_bit_pos(
                        self.stride,
                        nibble,
                    )) != 0 {
                        found_child =
                        Some(
                            StrideNodeId::new_with_cleaned_id(
                                search_pfx.net,
                                start_bit + nibble_len,
                            ),
                        );
                    }
                }

                if found_pfx.is_none() && found_child.is_none() {
                    ls_vec.clear();
                    proof {
                        assert(paths_of(ls_vec@) =~= Seq::<Path>::empty());
                    }
                }
            },
            None => {},
        }

        (found_child, found_pfx)
    }
}

impl TreeBitMapNode {
    /// Whether `p` is a prefix of the node, below the place of `nibble`,
    /// that a walk over the places has passed when it stands at the nibble
    /// `cur` of length `ms`.
    pub open spec fn more_listed(
        self,
        base: Path,
        nibble: nat,
        nl: nat,
        p: Path,
        ms: nat,
        cur: nat,
    ) -> bool {
        let k = (p.len - base.len) as nat;
        let m = p.nibble(base.len, k);
        &&& self.holds_prefix(base, p)
        &&& nl < k
        &&& in_span(nibble, nl, m, k)
        &&& (k < ms || (k == ms && m < cur))
    }

    /// Whether `c` is a child of the node, at or below the place of
    /// `nibble`, that a walk over the places of full length has passed when
    /// it stands at the nibble `cur`.
    pub open spec fn child_listed(self, base: Path, nibble: nat, nl: nat, c: Path, cur: nat) -> bool {
        let m = c.nibble(base.len, self.stride as nat);
        &&& self.holds_child(base, c)
        &&& in_span(nibble, nl, m, self.stride as nat)
        &&& m < cur
    }

    proof fn lemma_more_step(self, base: Path, nibble: nat, nl: nat, ms: nat, cur: nat)
        requires
            self.wf(),
            nl < ms <= self.stride,
            nibble < pow2(nl),
            in_span(nibble, nl, cur, ms),
        ensures
            cur < pow2(ms),
            forall|p: Path|
                self.more_listed(base, nibble, nl, p, ms, cur + 1) <==> (#[trigger] self.more_listed(
                    base,
                    nibble,
                    nl,
                    p,
                    ms,
                    cur,
                ) || (p == base.extend(cur, ms) && self.has_pfx(cur, ms))),
            forall|p: Path| #[trigger]
                self.more_listed(base, nibble, nl, p, ms, cur) ==> p.precedes(base.extend(cur, ms)),
    {
        lemma_span_bound(nibble, nl, ms);
        let x = base.extend(cur, ms);
        self.lemma_holds_extended(base, cur, ms);
        base.lemma_extend_nibble(cur, ms);
        assert forall|p: Path|
            self.more_listed(base, nibble, nl, p, ms, cur + 1) <==> (#[trigger] self.more_listed(
                base,
                nibble,
                nl,
                p,
                ms,
                cur,
            ) || (p == x && self.has_pfx(cur, ms))) by {
            let k = (p.len - base.len) as nat;
            let m = p.nibble(base.len, k);
            if self.more_listed(base, nibble, nl, p, ms, cur + 1) && !self.more_listed(
                base,
                nibble,
                nl,
                p,
                ms,
                cur,
            ) {
                p.lemma_split(base.len);
            }
        }
        assert forall|p: Path| #[trigger]
            self.more_listed(base, nibble, nl, p, ms, cur) implies p.precedes(x) by {
            let k = (p.len - base.len) as nat;
            let m = p.nibble(base.len, k);
            p.lemma_split(base.len);
            if k == ms {
                base.lemma_extend_ordered(m, base, cur, ms);
            }
        }
    }

    proof fn lemma_child_step(self, base: Path, nibble: nat, nl: nat, cur: nat)
        requires
            self.wf(),
            nl <= self.stride,
            nibble < pow2(nl),
            in_span(nibble, nl, cur, self.stride as nat),
        ensures
            cur < pow2(self.stride as nat),
            forall|c: Path|
                self.child_listed(base, nibble, nl, c, cur + 1) <==> (#[trigger] self.child_listed(
                    base,
                    nibble,
                    nl,
                    c,
                    cur,
                ) || (c == base.extend(cur, self.stride as nat) && self.has_ptr(cur))),
            forall|c: Path| #[trigger]
                self.child_listed(base, nibble, nl, c, cur) ==> c.precedes(
                    base.extend(cur, self.stride as nat),
                ),
    {
        let s = self.stride as nat;
        lemma_span_bound(nibble, nl, s);
        let x = base.extend(cur, s);
        self.lemma_holds_extended(base, cur, s);
        base.lemma_extend_nibble(cur, s);
        assert forall|c: Path|
            self.child_listed(base, nibble, nl, c, cur + 1) <==> (#[trigger] self.child_listed(
                base,
                nibble,
                nl,
                c,
                cur,
            ) || (c == x && self.has_ptr(cur))) by {
            if self.child_listed(base, nibble, nl, c, cur + 1) && !self.child_listed(
                base,
                nibble,
                nl,
                c,
                cur,
            ) {
                c.lemma_split(base.len);
            }
        }
        assert forall|c: Path| #[trigger]
            self.child_listed(base, nibble, nl, c, cur) implies c.precedes(x) by {
            let m = c.nibble(base.len, s);
            c.lemma_split(base.len);
            base.lemma_extend_ordered(m, base, cur, s);
        }
    }

    /// The prefixes and children that a walk has passed at its end are those
    /// that the place of the nibble covers.
    proof fn lemma_listed_all(self, base: Path, nibble: nat, nl: nat)
        requires
            self.wf(),
            nl <= self.stride,
            nibble < pow2(nl),
        ensures
            forall|p: Path|
                self.more_listed(base, nibble, nl, p, (self.stride + 1) as nat, 0) <==> (
                #[trigger] self.holds_prefix(base, p) && base.extend(nibble, nl).covers(p) && p.len
                    > base.len + nl),
            forall|c: Path|
                self.child_listed(
                    base,
                    nibble,
                    nl,
                    c,
                    (nibble + 1) * pow2((self.stride - nl) as nat),
                ) <==> (#[trigger] self.holds_child(base, c) && base.extend(nibble, nl).covers(c)),
    {
        let q = base.extend(nibble, nl);
        assert forall|p: Path|
            self.more_listed(base, nibble, nl, p, (self.stride + 1) as nat, 0) <==> (
            #[trigger] self.holds_prefix(base, p) && q.covers(p) && p.len > base.len + nl) by {
            if self.holds_prefix(base, p) {
                let k = (p.len - base.len) as nat;
                let m = p.nibble(base.len, k);
                p.lemma_split(base.len);
                base.lemma_covers_extended(nibble, nl, m, k);
            }
        }
        assert forall|c: Path|
            self.child_listed(base, nibble, nl, c, (nibble + 1) * pow2((self.stride - nl) as nat))
                <==> (#[trigger] self.holds_child(base, c) && q.covers(c)) by {
            if self.holds_child(base, c) {
                let k = self.stride as nat;
                let m = c.nibble(base.len, k);
                c.lemma_split(base.len);
                base.lemma_covers_extended(nibble, nl, m, k);
            }
        }
    }

    /// The children and the prefixes of this node that lie below the place
    /// of `nibble`: the children from which the search for more-specifics
    /// goes on, and the more-specifics that this node has itself.
    ///
    /// A child at the place of the nibble itself is among the children. Both
    /// lists are in ascending order.
    pub fn add_more_specifics_at<AF: AddressFamily>(
        &self,
        nibble: u32,
        nibble_len: u8,
        base_prefix: StrideNodeId<AF>,
    ) -> (r: (Vec<StrideNodeId<AF>>, Vec<PrefixId<AF>>))
        requires
            self.wf(),
            nibble_len <= self.stride,
            (nibble as nat) < pow2(nibble_len as nat),
            base_prefix.wf(),
            base_prefix.len + self.stride <= AF::width(),
        ensures
            all_nodes_wf(r.0@),
            ascending(node_paths_of(r.0@)),
            forall|c: Path| #[trigger]
                node_paths_of(r.0@).contains(c) <==> self.holds_child(base_prefix@, c)
                    && base_prefix@.extend(nibble as nat, nibble_len as nat).covers(c),
            all_wf(r.1@),
            ascending(paths_of(r.1@)),
            forall|p: Path| #[trigger]
                paths_of(r.1@).contains(p) <==> self.holds_prefix(base_prefix@, p)
                    && base_prefix@.extend(nibble as nat, nibble_len as nat).covers(p) && p.len
                    > base_prefix.len + nibble_len,
    {
        let pfxbitarr = self.pfxbitarr;
        let ptrbitarr = self.ptrbitarr;
        let mut found_children_with_more_specifics: Vec<StrideNodeId<AF>> = Vec::new();
        let mut found_more_specifics_vec: Vec<PrefixId<AF>> = Vec::new();
        let ghost base = base_prefix@;
        let ghost nib = nibble as nat;
        let ghost nl = nibble_len as nat;
        let ghost s = self.stride as nat;
        let ghost child_cur: nat = 0;

        proof {
            base_prefix.lemma_view_wf();
            vstd::arithmetic::power2::lemma2_to64();
            assert(node_paths_of(found_children_with_more_specifics@) =~= Seq::<Path>::empty());
            assert(paths_of(found_more_specifics_vec@) =~= Seq::<Path>::empty());
        }

        // A child at the place of the nibble itself.
        if nibble_len == self.stride {
            proof {
                assert(pow2(0) == 1);
                assert((s - nl) as nat == 0);
                assert(nib * 1 == nib && (nib + 1) * 1 == nib + 1);
                assert(in_span(nib, nl, nib, s));
                self.lemma_child_step(base, nib, nl, nib);
                assert forall|c: Path|
                    !#[trigger] self.child_listed(base, nib, nl, c, nib) by {}
            }
            if (ptrbitarr & get_ptr_bit_pos(self.stride, nibble)) != 0 {
                let child = base_prefix.add_nibble(nibble, nibble_len);
                proof {
                    lemma_node_paths_of_push(found_children_with_more_specifics@, child);
                    lemma_push_ascending(
                        node_paths_of(found_children_with_more_specifics@),
                        child@,
                    );
                }
                found_children_with_more_specifics.push(child);
            }
            proof {
                child_cur = nib + 1;
                let list = node_paths_of(found_children_with_more_specifics@);
                assert forall|c: Path| #[trigger]
                    list.contains(c) <==> self.child_listed(base, nib, nl, c, child_cur) by {
                    if self.child_listed(base, nib, nl, c, nib) {
                    }
                    if Seq::<Path>::empty().contains(c) {
                    }
                }
            }
        }
        let mut ms_nibble_len: u8 = nibble_len + 1;
        while ms_nibble_len <= self.stride
            invariant
                self.wf(),
                base_prefix.wf(),
                base == base_prefix@,
                nib == nibble as nat,
                nl == nibble_len as nat,
                s == self.stride as nat,
                nib < pow2(nl),
                nl <= s,
                base_prefix.len + self.stride <= AF::width(),
                pfxbitarr == self.pfxbitarr,
                ptrbitarr == self.ptrbitarr,
                nl + 1 <= ms_nibble_len <= s + 1,
                all_wf(found_more_specifics_vec@),
                ascending(paths_of(found_more_specifics_vec@)),
                forall|p: Path| #[trigger]
                    paths_of(found_more_specifics_vec@).contains(p) <==> self.more_listed(
                        base,
                        nib,
                        nl,
                        p,
                        ms_nibble_len as nat,
                        nib * pow2((ms_nibble_len - nl) as nat),
                    ),
                all_nodes_wf(found_children_with_more_specifics@),
                ascending(node_paths_of(found_children_with_more_specifics@)),
                forall|c: Path| #[trigger]
                    node_paths_of(found_children_with_more_specifics@).contains(c)
                        <==> self.child_listed(base, nib, nl, c, child_cur),
                child_cur == if nl == s {
                    nib + 1
                } else if ms_nibble_len == s + 1 {
                    (nib + 1) * pow2((s - nl) as nat)
                } else {
                    0
                },
            decreases s + 1 - ms_nibble_len,
        {
            let ghost ms = ms_nibble_len as nat;
            let d: u8 = ms_nibble_len - nibble_len;
            let span: u32 = pow2_u32(d);
            proof {
                lemma_span_bound(nib, nl, ms);
                lemma_pow2_pos(ms);
                lemma_layout(self.stride, 0, ms);
            }
            let first: u32 = nibble * span;
            let mut n_l: u32 = 0;
            proof {
                if ms == s {
                    child_cur = first as nat;
                    assert forall|c: Path|
                        !#[trigger] self.child_listed(base, nib, nl, c, first as nat) by {}
                }
            }
            while n_l < span
                invariant
                    self.wf(),
                    base_prefix.wf(),
                    base == base_prefix@,
                    nib == nibble as nat,
                    nl == nibble_len as nat,
                    s == self.stride as nat,
                    ms == ms_nibble_len as nat,
                    nib < pow2(nl),
                    nl < ms <= s,
                    base_prefix.len + self.stride <= AF::width(),
                    pfxbitarr == self.pfxbitarr,
                    ptrbitarr == self.ptrbitarr,
                    span == pow2((ms - nl) as nat),
                    first == nib * span,
                    first + span == (nib + 1) * span,
                    first + span <= pow2(ms),
                    pow2(ms) <= 32,
                    n_l <= span,
                    all_wf(found_more_specifics_vec@),
                    ascending(paths_of(found_more_specifics_vec@)),
                    forall|p: Path| #[trigger]
                        paths_of(found_more_specifics_vec@).contains(p) <==> self.more_listed(
                            base,
                            nib,
                            nl,
                            p,
                            ms,
                            (first + n_l) as nat,
                        ),
                    all_nodes_wf(found_children_with_more_specifics@),
                    ascending(node_paths_of(found_children_with_more_specifics@)),
                    forall|c: Path| #[trigger]
                        node_paths_of(found_children_with_more_specifics@).contains(c)
                            <==> self.child_listed(base, nib, nl, c, child_cur),
                    child_cur == if ms == s {
                        (first + n_l) as nat
                    } else {
                        0
                    },
                decreases span - n_l,
            {
                let ms_nibble: u32 = first + n_l;
                let ghost old_more = paths_of(found_more_specifics_vec@);
                let ghost old_children = node_paths_of(found_children_with_more_specifics@);
                proof {
                    assert(in_span(nib, nl, ms_nibble as nat, ms));
                    self.lemma_more_step(base, nib, nl, ms, ms_nibble as nat);
                    if ms == s {
                        self.lemma_child_step(base, nib, nl, ms_nibble as nat);
                    }
                }
                let bit_pos = get_bit_pos(self.stride, ms_nibble, ms_nibble_len);

                if ms_nibble_len == self.stride && (ptrbitarr & get_ptr_bit_pos(
                    self.stride,
                    ms_nibble,
                )) != 0 {
                    let child = base_prefix.add_nibble(ms_nibble, ms_nibble_len);
                    proof {
                        let list = node_paths_of(found_children_with_more_specifics@);
                        assert forall|i: int| 0 <= i < list.len() implies (#[trigger] list[i]).precedes(
                            child@,
                        ) by {
                            assert(list.contains(list[i]));
                        }
                        lemma_node_paths_of_push(found_children_with_more_specifics@, child);
                        lemma_push_ascending(list, child@);
                    }
                    found_children_with_more_specifics.push(child);
                }
                if pfxbitarr & bit_pos != 0 {
                    let pfx = base_prefix.add_nibble(ms_nibble, ms_nibble_len).into_prefix_id();
                    proof {
                        let list = paths_of(found_more_specifics_vec@);
                        assert forall|i: int| 0 <= i < list.len() implies (#[trigger] list[i]).precedes(
                            pfx@,
                        ) by {
                            assert(list.contains(list[i]));
                        }
                        lemma_paths_of_push(found_more_specifics_vec@, pfx);
                        lemma_push_ascending(list, pfx@);
                    }
                    found_more_specifics_vec.push(pfx);
                }
                n_l += 1;
                proof {
                    let cur = ms_nibble as nat;
                    let new_more = paths_of(found_more_specifics_vec@);
                    assert forall|p: Path| #[trigger]
                        new_more.contains(p) <==> self.more_listed(base, nib, nl, p, ms, cur + 1) by {
                        if self.more_listed(base, nib, nl, p, ms, cur) {
                        }
                        if old_more.contains(p) {
                        }
                    }
                    if ms == s {
                        child_cur = (first + n_l) as nat;
                        let new_children = node_paths_of(found_children_with_more_specifics@);
                        assert forall|c: Path| #[trigger]
                            new_children.contains(c) <==> self.child_listed(
                                base,
                                nib,
                                nl,
                                c,
                                cur + 1,
                            ) by {
                            if self.child_listed(base, nib, nl, c, cur) {
                            }
                            if old_children.contains(c) {
                            }
                        }
                    }
                }
            }
            ms_nibble_len += 1;
            proof {
                if ms < s {
                    lemma_span_bound(nib, nl, ms + 1);
                }
                assert forall|p: Path|
                    self.more_listed(base, nib, nl, p, ms, (first + span) as nat)
                        <==> #[trigger] self.more_listed(
                        base,
                        nib,
                        nl,
                        p,
                        ms + 1,
                        nib * pow2((ms + 1 - nl) as nat),
                    ) by {}
            }
        }
        proof {
            self.lemma_listed_all(base, nib, nl);
            assert forall|p: Path|
                self.more_listed(base, nib, nl, p, s + 1, nib * pow2((s + 1 - nl) as nat))
                    <==> #[trigger] self.more_listed(base, nib, nl, p, s + 1, 0) by {}
            if nl == s {
                assert(pow2(0) == 1);
            }
        }
        (found_children_with_more_specifics, found_more_specifics_vec)
    }
}

/// A walk over the children of a node, in ascending order.
pub struct NodeChildIter<AF: AddressFamily> {
    base_prefix: StrideNodeId<AF>,
    stride: u8,
    ptrbitarr: u32,
    bit_span: u32,
}

impl<AF: AddressFamily> NodeChildIter<AF> {
    /// The identifier of the node that is walked over.
    pub closed spec fn base(self) -> StrideNodeId<AF> {
        self.base_prefix
    }

    /// The node that is walked over, as far as its children go.
    pub closed spec fn source(self) -> TreeBitMapNode {
        TreeBitMapNode { stride: self.stride, ptrbitarr: self.ptrbitarr, pfxbitarr: 0 }
    }

    /// The nibble that the walk looks at next.
    pub closed spec fn cursor(self) -> nat {
        self.bit_span as nat
    }

    /// The walk is over a node that can be, and within it.
    pub closed spec fn wf(self) -> bool {
        &&& valid_stride(self.stride)
        &&& self.base_prefix.wf()
        &&& self.base_prefix.len + self.stride <= AF::width()
        &&& self.bit_span <= pow2(self.stride as nat)
    }

    /// The next child of the node, if there is one left.
    pub fn next(&mut self) -> (r: Option<StrideNodeId<AF>>)
        requires
            old(self).wf(),
        ensures
            final(self).wf(),
            final(self).base() == old(self).base(),
            final(self).source() == old(self).source(),
            match r {
                Some(c) => {
                    let m = (final(self).cursor() - 1) as nat;
                    &&& old(self).cursor() <= m < pow2(old(self).source().stride as nat)
                    &&& old(self).source().has_ptr(m)
                    &&& c.wf()
                    &&& c@ == old(self).base()@.extend(m, old(self).source().stride as nat)
                    &&& forall|n: nat|
                        old(self).cursor() <= n < m ==> !#[trigger] old(self).source().has_ptr(n)
                },
                None => {
                    &&& final(self).cursor() == pow2(old(self).source().stride as nat)
                    &&& forall|n: nat|
                        old(self).cursor() <= n < pow2(old(self).source().stride as nat)
                            ==> !#[trigger] old(self).source().has_ptr(n)
                },
            },
    {
        let end: u32 = pow2_u32(self.stride);
        let mut cursor: u32 = self.bit_span;
        while cursor < end
            invariant
                self.wf(),
                *self == *old(self),
                end == pow2(self.stride as nat),
                self.bit_span <= cursor <= end,
                forall|n: nat|
                    self.bit_span <= n < cursor ==> !#[trigger] self.source().has_ptr(n),
            decreases end - cursor,
        {
            let bit_pos = get_ptr_bit_pos(self.stride, cursor);
            if self.ptrbitarr & bit_pos != 0 {
                self.bit_span = cursor + 1;
                return Some(self.base_prefix.add_nibble(cursor, self.stride));
            }
            cursor += 1;
        }
        self.bit_span = end;
        None
    }
}

/// A walk over the prefixes of a node, in ascending order.
pub struct NodePrefixIter<AF: AddressFamily> {
    base_prefix: StrideNodeId<AF>,
    stride: u8,
    pfxbitarr: u64,
    start_len: u8,
    start_bit_span: u32,
}

/// Whether the nibble `m` of length `k` is at or behind the nibble `m0` of
/// length `k0`, in the order in which the prefixes of a node are walked.
pub open spec fn at_or_after(k: nat, m: nat, k0: nat, m0: nat) -> bool {
    k > k0 || (k == k0 && m >= m0)
}

impl<AF: AddressFamily> NodePrefixIter<AF> {
    /// The identifier of the node that is walked over.
    pub closed spec fn base(self) -> StrideNodeId<AF> {
        self.base_prefix
    }

    /// The node that is walked over, as far as its prefixes go.
    pub closed spec fn source(self) -> TreeBitMapNode {
        TreeBitMapNode { stride: self.stride, ptrbitarr: 0, pfxbitarr: self.pfxbitarr }
    }

    /// The length of the nibble that the walk looks at next.
    pub closed spec fn cursor_len(self) -> nat {
        self.start_len as nat
    }

    /// The nibble that the walk looks at next.
    pub closed spec fn cursor(self) -> nat {
        self.start_bit_span as nat
    }

    /// The walk is over a node that can be, and within it.
    pub closed spec fn wf(self) -> bool {
        &&& valid_stride(self.stride)
        &&& self.base_prefix.wf()
        &&& self.base_prefix.len + self.stride <= AF::width()
        &&& 1 <= self.start_len <= self.stride + 1
        &&& self.start_len <= self.stride ==> self.start_bit_span <= pow2(self.start_len as nat)
    }

    /// The next prefix of the node, if there is one left.
    pub fn next(&mut self) -> (r: Option<PrefixId<AF>>)
        requires
            old(self).wf(),
        ensures
            final(self).wf(),
            final(self).base() == old(self).base(),
            final(self).source() == old(self).source(),
            match r {
                Some(p) => {
                    let k = final(self).cursor_len();
                    let m = (final(self).cursor() - 1) as nat;
                    &&& 1 <= k <= old(self).source().stride
                    &&& final(self).cursor() >= 1
                    &&& m < pow2(k)
                    &&& at_or_after(k, m, old(self).cursor_len(), old(self).cursor())
                    &&& old(self).source().has_pfx(m, k)
                    &&& p.wf()
                    &&& p@ == old(self).base()@.extend(m, k)
                    &&& forall|k1: nat, m1: nat|
                        k1 <= old(self).source().stride && m1 < pow2(k1) && at_or_after(
                            k1,
                            m1,
                            old(self).cursor_len(),
                            old(self).cursor(),
                        ) && !at_or_after(k1, m1, k, m) ==> !#[trigger] old(self).source().has_pfx(
                            m1,
                            k1,
                        )
                },
                None => {
                    &&& final(self).cursor_len() == old(self).source().stride + 1
                    &&& forall|k1: nat, m1: nat|
                        k1 <= old(self).source().stride && m1 < pow2(k1) && at_or_after(
                            k1,
                            m1,
                            old(self).cursor_len(),
                            old(self).cursor(),
                        ) ==> !#[trigger] old(self).source().has_pfx(m1, k1)
                },
            },
    {
        let mut cur_len: u8 = self.start_len;
        let mut first_span: u32 = self.start_bit_span;
        while cur_len <= self.stride
            invariant
                self.wf(),
                *self == *old(self),
                self.start_len <= cur_len <= self.stride + 1,
                cur_len <= self.stride ==> first_span <= pow2(cur_len as nat),
                at_or_after(
                    cur_len as nat,
                    first_span as nat,
                    self.start_len as nat,
                    self.start_bit_span as nat,
                ),
                forall|k1: nat, m1: nat|
                    k1 <= self.stride && m1 < pow2(k1) && at_or_after(
                        k1,
                        m1,
                        self.start_len as nat,
                        self.start_bit_span as nat,
                    ) && !at_or_after(k1, m1, cur_len as nat, first_span as nat)
                        ==> !#[trigger] self.source().has_pfx(m1, k1),
            decreases self.stride + 1 - cur_len,
        {
            let end: u32 = pow2_u32(cur_len);
            let mut bit_span: u32 = first_span;
            while bit_span < end
                invariant
                    self.wf(),
                    *self == *old(self),
                    self.start_len <= cur_len <= self.stride,
                    end == pow2(cur_len as nat),
                    first_span <= bit_span <= end,
                    at_or_after(
                        cur_len as nat,
                        bit_span as nat,
                        self.start_len as nat,
                        self.start_bit_span as nat,
                    ),
                    forall|k1: nat, m1: nat|
                        k1 <= self.stride && m1 < pow2(k1) && at_or_after(
                            k1,
                            m1,
                            self.start_len as nat,
                            self.start_bit_span as nat,
                        ) && !at_or_after(k1, m1, cur_len as nat, bit_span as nat)
                            ==> !#[trigger] self.source().has_pfx(m1, k1),
                decreases end - bit_span,
            {
                let bit_pos = get_bit_pos(self.stride, bit_span, cur_len);
                if self.pfxbitarr & bit_pos != 0 {
                    self.start_bit_span = bit_span + 1;
                    self.start_len = cur_len;
                    return Some(self.base_prefix.add_nibble(bit_span, cur_len).into_prefix_id());
                }
                bit_span += 1;
            }
            cur_len += 1;
            first_span = 0;
        }
        self.start_len = cur_len;
        self.start_bit_span = 0;
        None
    }
}

impl TreeBitMapNode {
    /// A walk over the children of this node, whose identifier is
    /// `base_prefix`.
    pub fn ptr_iter<AF: AddressFamily>(&self, base_prefix: StrideNodeId<AF>) -> (r: NodeChildIter<
        AF,
    >)
        requires
            self.wf(),
            base_prefix.wf(),
            base_prefix.len + self.stride <= AF::width(),
        ensures
            r.wf(),
            r.base() == base_prefix,
            r.cursor() == 0,
            r.source().stride == self.stride,
            forall|n: nat| r.source().has_ptr(n) == self.has_ptr(n),
    {
        NodeChildIter { base_prefix, stride: self.stride, ptrbitarr: self.ptrbitarr, bit_span: 0 }
    }

    /// A walk over the prefixes of this node, whose identifier is
    /// `base_prefix`.
    pub fn pfx_iter<AF: AddressFamily>(&self, base_prefix: StrideNodeId<AF>) -> (r: NodePrefixIter<
        AF,
    >)
        requires
            self.wf(),
            base_prefix.wf(),
            base_prefix.len + self.stride <= AF::width(),
        ensures
            r.wf(),
            r.base() == base_prefix,
            r.cursor_len() == 1,
            r.cursor() == 0,
            r.source().stride == self.stride,
            forall|n: nat, k: nat| r.source().has_pfx(n, k) == self.has_pfx(n, k),
    {
        NodePrefixIter {
            base_prefix,
            stride: self.stride,
            pfxbitarr: self.pfxbitarr,
            start_len: 1,
            start_bit_span: 0,
        }
    }
}

/// The path of an identifier that may be there.
pub open spec fn option_path<AF: AddressFamily>(p: Option<PrefixId<AF>>) -> Option<Path> {
    match p {
        Some(id) => Some(id@),
        None => None,
    }
}

} // verus!
