//! The levels of the trie.
//!
//! The strides of a store cut the bits of an address into consecutive
//! groups, one for each level of the trie. A node of level `i` has the path
//! of the bits before the group `i`, and holds the prefixes that end within
//! the group.

use vstd::prelude::*;
use crate::stride::valid_stride;

verus! {

/// The number of bits before the group `i`: the sum of the first `i`
/// strides.
pub open spec fn stride_start(strides: Seq<u8>, i: nat) -> nat
    recommends
        i <= strides.len(),
    decreases i,
{
    if i == 0 {
        0
    } else {
        stride_start(strides, (i - 1) as nat) + strides[i - 1] as nat
    }
}

/// Every stride is one that a node can have, and together they are the
/// `w` bits of an address.
pub open spec fn valid_strides(strides: Seq<u8>, w: nat) -> bool {
    &&& forall|i: int| 0 <= i < strides.len() ==> valid_stride(#[trigger] strides[i])
    &&& stride_start(strides, strides.len()) == w
}

/// The nodes of level `i` have paths of length `len`.
pub open spec fn is_level(strides: Seq<u8>, i: nat, len: nat) -> bool {
    i < strides.len() && stride_start(strides, i) == len
}

/// The prefixes of length `len` are held by the nodes of level `i`.
pub open spec fn hosts_len(strides: Seq<u8>, i: nat, len: nat) -> bool {
    i < strides.len() && stride_start(strides, i) < len <= stride_start(strides, i + 1)
}

/// The level whose nodes have paths of length `len`.
pub open spec fn level_at(strides: Seq<u8>, len: nat) -> nat {
    choose|i: nat| is_level(strides, i, len)
}

/// The level whose nodes hold the prefixes of length `len`.
pub open spec fn host_level(strides: Seq<u8>, len: nat) -> nat {
    choose|i: nat| hosts_len(strides, i, len)
}

/// The length of the paths of the nodes that hold the prefixes of length
/// `len`.
pub open spec fn host_start(strides: Seq<u8>, len: nat) -> nat {
    stride_start(strides, host_level(strides, len))
}

/// Each level begins at least three bits behind the one before.
pub proof fn lemma_stride_start_grows(strides: Seq<u8>, i: nat, j: nat)
    requires
        forall|i: int| 0 <= i < strides.len() ==> valid_stride(#[trigger] strides[i]),
        i <= j <= strides.len(),
    ensures
        stride_start(strides, i) + 3 * (j - i) <= stride_start(strides, j),
        stride_start(strides, j) <= stride_start(strides, i) + 5 * (j - i),
    decreases j,
{
    if i < j {
        lemma_stride_start_grows(strides, i, (j - 1) as nat);
    }
}

/// The levels lie within the width of an address.
pub proof fn lemma_stride_start_bound(strides: Seq<u8>, w: nat, i: nat)
    requires
        valid_strides(strides, w),
        i <= strides.len(),
    ensures
        stride_start(strides, i) <= w,
        i < strides.len() ==> stride_start(strides, i) + strides[i as int] == stride_start(
            strides,
            i + 1,
        ) && stride_start(strides, i + 1) <= w,
{
    lemma_stride_start_grows(strides, i, strides.len());
    if i < strides.len() {
        lemma_stride_start_grows(strides, i + 1, strides.len());
    }
}

/// A length is that of the nodes of one level at most.
pub proof fn lemma_level_unique(strides: Seq<u8>, w: nat, i: nat, j: nat, len: nat)
    requires
        valid_strides(strides, w),
        is_level(strides, i, len),
        is_level(strides, j, len),
    ensures
        i == j,
        level_at(strides, len) == i,
{
    if i < j {
        lemma_stride_start_grows(strides, i, j);
    } else if j < i {
        lemma_stride_start_grows(strides, j, i);
    }
    let k = level_at(strides, len);
    if k < i {
        lemma_stride_start_grows(strides, k, i);
    } else if i < k {
        lemma_stride_start_grows(strides, i, k);
    }
}

/// The prefixes of one length are held at one level at most.
pub proof fn lemma_host_unique(strides: Seq<u8>, w: nat, i: nat, j: nat, len: nat)
    requires
        valid_strides(strides, w),
        hosts_len(strides, i, len),
        hosts_len(strides, j, len),
    ensures
        i == j,
        host_level(strides, len) == i,
        host_start(strides, len) == stride_start(strides, i),
{
    if i < j {
        lemma_stride_start_grows(strides, i + 1, j);
    } else if j < i {
        lemma_stride_start_grows(strides, j + 1, i);
    }
    let k = host_level(strides, len);
    if k < i {
        lemma_stride_start_grows(strides, k + 1, i);
    } else if i < k {
        lemma_stride_start_grows(strides, i + 1, k);
    }
}

/// Every length from one to the width is held at some level.
pub proof fn lemma_host_exists(strides: Seq<u8>, w: nat, len: nat)
    requires
        valid_strides(strides, w),
        1 <= len <= w,
    ensures
        hosts_len(strides, host_level(strides, len), len),
{
    lemma_host_search(strides, w, len, 0);
}

proof fn lemma_host_search(strides: Seq<u8>, w: nat, len: nat, i: nat)
    requires
        valid_strides(strides, w),
        1 <= len <= w,
        i < strides.len(),
        stride_start(strides, i) < len,
    ensures
        exists|j: nat| hosts_len(strides, j, len),
    decreases strides.len() - i,
{
    if len <= stride_start(strides, i + 1) {
        assert(hosts_len(strides, i, len));
    } else {
        assert(i + 1 < strides.len());
        lemma_host_search(strides, w, len, i + 1);
    }
}

} // verus!
