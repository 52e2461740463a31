//! What holds of the nodes and the prefixes of a store at all times.
//!
//! The bitmaps of the nodes and the two maps of the store say the same thing
//! twice: a bit is set in a node exactly if the prefix or the child that it
//! stands for is in the maps. Besides, every node but the root has its
//! parent, every prefix has the node that holds it, and no node is there
//! without a prefix below it.

use vstd::prelude::*;
use vstd::arithmetic::power2::pow2;
use crate::levels::{stride_start, valid_strides, is_level, hosts_len, level_at, host_level,
    host_start, lemma_stride_start_grows, lemma_stride_start_bound, lemma_level_unique,
    lemma_host_unique, lemma_host_exists};
use crate::model::has_descendant;
use crate::node::TreeBitMapNode;
use crate::path::Path;
use crate::stride::lemma_empty_bitmaps;

verus! {

/// Whether `p` is at one of the places of a node of path `n` and stride
/// `stride`.
pub open spec fn in_node(n: Path, stride: u8, p: Path) -> bool {
    n.len < p.len <= n.len + stride && p.ancestor(n.len) == n
}

/// Whether `c` is at one of the places for children of a node of path `n`
/// and stride `stride`.
pub open spec fn below_node(n: Path, stride: u8, c: Path) -> bool {
    c.len == n.len + stride && c.ancestor(n.len) == n
}

/// What holds of the node at `n`: it is at a level and has its stride, its
/// bits are set for what the maps hold at its places, and unless it is the
/// root it has a parent in `nodes` and a prefix of `below` below it.
pub open spec fn node_ok(
    nodes: Map<Path, TreeBitMapNode>,
    dom: Set<Path>,
    below: Set<Path>,
    strides: Seq<u8>,
    n: Path,
) -> bool {
    let i = level_at(strides, n.len);
    let node = nodes[n];
    &&& n.wf()
    &&& is_level(strides, i, n.len)
    &&& node.stride == strides[i as int]
    &&& i > 0 ==> nodes.contains_key(n.ancestor(stride_start(strides, (i - 1) as nat)))
        && has_descendant(below, n)
    &&& forall|p: Path| #[trigger] node.holds_prefix(n, p) ==> dom.contains(p)
    &&& forall|p: Path|
        #[trigger] dom.contains(p) && in_node(n, node.stride, p) ==> node.holds_prefix(n, p)
    &&& forall|c: Path| #[trigger] node.holds_child(n, c) ==> nodes.contains_key(c)
    &&& forall|c: Path|
        #[trigger] nodes.contains_key(c) && below_node(n, node.stride, c) ==> node.holds_child(
            n,
            c,
        )
}

/// What holds of the prefix `p`: it fits the width, and the node that holds
/// it is there.
pub open spec fn prefix_ok(nodes: Map<Path, TreeBitMapNode>, strides: Seq<u8>, w: nat, p: Path) -> bool {
    &&& p.wf()
    &&& p.len <= w
    &&& p.len > 0 ==> nodes.contains_key(p.ancestor(host_start(strides, p.len)))
}

/// What holds of the nodes `nodes` and the prefixes `dom` of a store with
/// these strides. While a prefix is being inserted, `below` is `dom` with
/// that prefix; at all other times it is `dom`.
#[verifier::opaque]
pub open spec fn trie_inv(
    nodes: Map<Path, TreeBitMapNode>,
    dom: Set<Path>,
    below: Set<Path>,
    strides: Seq<u8>,
    w: nat,
) -> bool {
    &&& valid_strides(strides, w)
    &&& strides.len() > 0
    &&& nodes.contains_key(Path::root())
    &&& forall|n: Path| #[trigger] nodes.contains_key(n) ==> node_ok(nodes, dom, below, strides, n)
    &&& forall|p: Path| #[trigger] dom.contains(p) ==> prefix_ok(nodes, strides, w, p)
}

/// What a consistent store has: strides that are valid, and the root.
pub proof fn lemma_inv_basics(
    nodes: Map<Path, TreeBitMapNode>,
    dom: Set<Path>,
    below: Set<Path>,
    strides: Seq<u8>,
    w: nat,
)
    requires
        trie_inv(nodes, dom, below, strides, w),
    ensures
        valid_strides(strides, w),
        strides.len() > 0,
        nodes.contains_key(Path::root()),
{
    reveal(trie_inv);
}

/// What a consistent store has for each of its nodes.
pub proof fn lemma_inv_node(
    nodes: Map<Path, TreeBitMapNode>,
    dom: Set<Path>,
    below: Set<Path>,
    strides: Seq<u8>,
    w: nat,
    n: Path,
)
    requires
        trie_inv(nodes, dom, below, strides, w),
        nodes.contains_key(n),
    ensures
        node_ok(nodes, dom, below, strides, n),
{
    reveal(trie_inv);
}

/// What a consistent store has for the node at a level.
pub proof fn lemma_inv_node_at(
    nodes: Map<Path, TreeBitMapNode>,
    dom: Set<Path>,
    below: Set<Path>,
    strides: Seq<u8>,
    w: nat,
    i: nat,
    n: Path,
)
    requires
        trie_inv(nodes, dom, below, strides, w),
        nodes.contains_key(n),
        is_level(strides, i, n.len),
    ensures
        n.wf(),
        nodes[n].stride == strides[i as int],
        valid_strides(strides, w),
        n.len + nodes[n].stride <= w,
        forall|p: Path|
            in_node(n, nodes[n].stride, p) ==> (#[trigger] nodes[n].holds_prefix(n, p)
                == dom.contains(p)),
        forall|c: Path|
            below_node(n, nodes[n].stride, c) ==> (#[trigger] nodes[n].holds_child(n, c)
                == nodes.contains_key(c)),
{
    reveal(trie_inv);
    assert(node_ok(nodes, dom, below, strides, n));
    lemma_level_unique(strides, w, i, i, n.len);
    lemma_stride_start_bound(strides, w, i);
}

/// What a consistent store has for each of its prefixes.
pub proof fn lemma_inv_prefix(
    nodes: Map<Path, TreeBitMapNode>,
    dom: Set<Path>,
    below: Set<Path>,
    strides: Seq<u8>,
    w: nat,
    p: Path,
)
    requires
        trie_inv(nodes, dom, below, strides, w),
        dom.contains(p),
    ensures
        prefix_ok(nodes, strides, w, p),
{
    reveal(trie_inv);
}

/// Where a bit of the prefix bitmap is set, the node holds one prefix more.
pub proof fn lemma_holds_prefix_after(
    old_node: TreeBitMapNode,
    new_node: TreeBitMapNode,
    n: Path,
    nibble: nat,
    k: nat,
    p: Path,
)
    requires
        old_node.wf(),
        new_node.stride == old_node.stride,
        1 <= k <= old_node.stride,
        nibble < pow2(k),
        forall|x: nat, j: nat|
            j <= old_node.stride && x < pow2(j) ==> #[trigger] new_node.has_pfx(x, j) == (
            old_node.has_pfx(x, j) || (x == nibble && j == k)),
    ensures
        new_node.holds_prefix(n, p) == (old_node.holds_prefix(n, p) || p == n.extend(nibble, k)),
{
    let p0 = n.extend(nibble, k);
    n.lemma_extend_ancestor(nibble, k);
    n.lemma_extend_nibble(nibble, k);
    if in_node(n, old_node.stride, p) {
        let j = (p.len - n.len) as nat;
        p.lemma_split(n.len);
        assert(new_node.has_pfx(p.nibble(n.len, j), j) == (old_node.has_pfx(p.nibble(n.len, j), j)
            || (p.nibble(n.len, j) == nibble && j == k)));
    }
}

/// Where a bit of the child bitmap is set, the node holds one child more.
pub proof fn lemma_holds_child_after(
    old_node: TreeBitMapNode,
    new_node: TreeBitMapNode,
    n: Path,
    nibble: nat,
    c: Path,
)
    requires
        old_node.wf(),
        new_node.stride == old_node.stride,
        nibble < pow2(old_node.stride as nat),
        forall|x: nat|
            x < pow2(old_node.stride as nat) ==> #[trigger] new_node.has_ptr(x) == (
            old_node.has_ptr(x) || x == nibble),
    ensures
        new_node.holds_child(n, c) == (old_node.holds_child(n, c) || c == n.extend(
            nibble,
            old_node.stride as nat,
        )),
{
    let s = old_node.stride as nat;
    n.lemma_extend_ancestor(nibble, s);
    n.lemma_extend_nibble(nibble, s);
    if below_node(n, old_node.stride, c) {
        c.lemma_split(n.len);
        assert(new_node.has_ptr(c.nibble(n.len, s)) == (old_node.has_ptr(c.nibble(n.len, s))
            || c.nibble(n.len, s) == nibble));
    }
}

/// A node that holds a place is at the level that holds the length of the
/// place.
pub proof fn lemma_host_of(strides: Seq<u8>, w: nat, i: nat, n: Path, stride: u8, p: Path)
    requires
        valid_strides(strides, w),
        is_level(strides, i, n.len),
        stride == strides[i as int],
        in_node(n, stride, p),
    ensures
        hosts_len(strides, i, p.len),
        host_start(strides, p.len) == n.len,
        p.ancestor(host_start(strides, p.len)) == n,
{
    lemma_stride_start_bound(strides, w, i);
    lemma_host_unique(strides, w, i, i, p.len);
}

/// The store stays as it should be when a node gets a child that it did not
/// have, for a prefix that is being inserted.
pub proof fn lemma_add_child(
    nodes: Map<Path, TreeBitMapNode>,
    dom: Set<Path>,
    below: Set<Path>,
    strides: Seq<u8>,
    w: nat,
    i: nat,
    n: Path,
    new_node: TreeBitMapNode,
    nibble: nat,
    child: TreeBitMapNode,
)
    requires
        trie_inv(nodes, dom, below, strides, w),
        nodes.contains_key(n),
        is_level(strides, i, n.len),
        i + 1 < strides.len(),
        nibble < pow2(nodes[n].stride as nat),
        new_node.stride == nodes[n].stride,
        new_node.pfxbitarr == nodes[n].pfxbitarr,
        !nodes[n].has_ptr(nibble),
        forall|x: nat|
            x < pow2(nodes[n].stride as nat) ==> #[trigger] new_node.has_ptr(x) == (
            nodes[n].has_ptr(x) || x == nibble),
        child.stride == strides[i as int + 1],
        child.ptrbitarr == 0,
        child.pfxbitarr == 0,
        has_descendant(below, n.extend(nibble, nodes[n].stride as nat)),
    ensures
        !nodes.contains_key(n.extend(nibble, nodes[n].stride as nat)),
        trie_inv(
            nodes.insert(n, new_node).insert(n.extend(nibble, nodes[n].stride as nat), child),
            dom,
            below,
            strides,
            w,
        ),
{
    reveal(trie_inv);
    let old_node = nodes[n];
    let s = old_node.stride;
    let c = n.extend(nibble, s as nat);
    let nodes2 = nodes.insert(n, new_node).insert(c, child);
    assert(node_ok(nodes, dom, below, strides, n));
    lemma_level_unique(strides, w, i, i, n.len);
    lemma_stride_start_bound(strides, w, i);
    lemma_stride_start_bound(strides, w, i + 1);
    n.lemma_extend_ancestor(nibble, s as nat);
    n.lemma_extend_nibble(nibble, s as nat);
    n.lemma_extend_wf(nibble, s as nat);
    assert(is_level(strides, i + 1, c.len));
    lemma_level_unique(strides, w, i + 1, i + 1, c.len);
    // The child was not there.
    assert(!nodes.contains_key(c)) by {
        if nodes.contains_key(c) {
            assert(below_node(n, s, c));
            assert(old_node.holds_child(n, c));
        }
    }
    assert forall|m: Path| #[trigger] nodes2.contains_key(m) implies node_ok(
        nodes2,
        dom,
        below,
        strides,
        m,
    ) by {
        if m == c {
            assert forall|p: Path| !child.holds_prefix(c, p) by {
                let k = (p.len - c.len) as nat;
                lemma_empty_bitmaps(crate::stride::pfx_shift(child.stride, p.nibble(c.len, k), k));
            }
            assert forall|x: Path| !child.holds_child(c, x) by {
                lemma_empty_bitmaps(
                    crate::stride::ptr_shift(child.stride, x.nibble(c.len, child.stride as nat)),
                );
            }
            assert forall|p: Path| #[trigger]
                dom.contains(p) && in_node(c, child.stride, p) implies child.holds_prefix(c, p) by {
                assert(prefix_ok(nodes, strides, w, p));
                lemma_host_of(strides, w, i + 1, c, child.stride, p);
            }
            assert forall|x: Path| #[trigger]
                nodes2.contains_key(x) && below_node(c, child.stride, x) implies child.holds_child(
                c,
                x,
            ) by {
                assert(nodes.contains_key(x));
                assert(node_ok(nodes, dom, below, strides, x));
                let j = level_at(strides, x.len);
                if j < i + 2 {
                    lemma_stride_start_grows(strides, j, i + 2);
                } else if j > i + 2 {
                    lemma_stride_start_grows(strides, i + 2, j);
                }
                assert(j == i + 2);
                assert(x.ancestor(stride_start(strides, (j - 1) as nat)) == c);
            }
        } else {
            assert(nodes.contains_key(m));
            assert(node_ok(nodes, dom, below, strides, m));
            let node = nodes2[m];
            let j = level_at(strides, m.len);
            if m == n {
                assert forall|x: Path| #[trigger] node.holds_child(m, x) implies nodes2.contains_key(
                    x,
                ) by {
                    lemma_holds_child_after(old_node, new_node, n, nibble, x);
                }
                assert forall|x: Path| #[trigger]
                    nodes2.contains_key(x) && below_node(m, node.stride, x) implies node.holds_child(
                    m,
                    x,
                ) by {
                    lemma_holds_child_after(old_node, new_node, n, nibble, x);
                }
                assert forall|p: Path| node.holds_prefix(m, p) == old_node.holds_prefix(m, p) by {}
            } else {
                assert forall|x: Path| #[trigger]
                    nodes2.contains_key(x) && below_node(m, node.stride, x) implies node.holds_child(
                    m,
                    x,
                ) by {
                    if x == c {
                        lemma_stride_start_bound(strides, w, j);
                        if j < i {
                            lemma_stride_start_grows(strides, j + 1, i + 1);
                        } else if i < j {
                            lemma_stride_start_grows(strides, i + 1, j + 1);
                        }
                    }
                }
            }
        }
    }
    assert forall|p: Path| #[trigger] dom.contains(p) implies prefix_ok(nodes2, strides, w, p) by {
        assert(prefix_ok(nodes, strides, w, p));
    }
}

/// The store is as it should be when the prefix that was being inserted is
/// in its node and in the map.
pub proof fn lemma_add_prefix(
    nodes: Map<Path, TreeBitMapNode>,
    dom: Set<Path>,
    below: Set<Path>,
    strides: Seq<u8>,
    w: nat,
    i: nat,
    n: Path,
    new_node: TreeBitMapNode,
    nibble: nat,
    k: nat,
)
    requires
        trie_inv(nodes, dom, below, strides, w),
        nodes.contains_key(n),
        is_level(strides, i, n.len),
        1 <= k <= nodes[n].stride,
        nibble < pow2(k),
        new_node.stride == nodes[n].stride,
        new_node.ptrbitarr == nodes[n].ptrbitarr,
        forall|x: nat, j: nat|
            j <= nodes[n].stride && x < pow2(j) ==> #[trigger] new_node.has_pfx(x, j) == (
            nodes[n].has_pfx(x, j) || (x == nibble && j == k)),
        forall|p: Path| #[trigger] below.contains(p) ==> dom.contains(p) || p == n.extend(nibble, k),
    ensures
        nodes[n].has_pfx(nibble, k) == dom.contains(n.extend(nibble, k)),
        trie_inv(
            nodes.insert(n, new_node),
            dom.insert(n.extend(nibble, k)),
            dom.insert(n.extend(nibble, k)),
            strides,
            w,
        ),
{
    reveal(trie_inv);
    let old_node = nodes[n];
    let s = old_node.stride;
    let p0 = n.extend(nibble, k);
    let nodes2 = nodes.insert(n, new_node);
    let dom2 = dom.insert(p0);
    assert(node_ok(nodes, dom, below, strides, n));
    lemma_level_unique(strides, w, i, i, n.len);
    lemma_stride_start_bound(strides, w, i);
    n.lemma_extend_ancestor(nibble, k);
    n.lemma_extend_nibble(nibble, k);
    n.lemma_extend_wf(nibble, k);
    assert(in_node(n, s, p0));
    lemma_host_of(strides, w, i, n, s, p0);
    assert(old_node.holds_prefix(n, p0) == old_node.has_pfx(nibble, k));
    assert forall|m: Path| #[trigger] nodes2.contains_key(m) implies node_ok(
        nodes2,
        dom2,
        dom2,
        strides,
        m,
    ) by {
        assert(nodes.contains_key(m));
        assert(node_ok(nodes, dom, below, strides, m));
        let node = nodes2[m];
        let j = level_at(strides, m.len);
        if j > 0 {
            let wit = choose|p: Path| #[trigger] below.contains(p) && m.covers(p) && m.len < p.len;
            assert(dom2.contains(wit));
        }
        if m == n {
            assert forall|p: Path| #[trigger] node.holds_prefix(m, p) implies dom2.contains(p) by {
                lemma_holds_prefix_after(old_node, new_node, n, nibble, k, p);
            }
            assert forall|p: Path| #[trigger]
                dom2.contains(p) && in_node(m, node.stride, p) implies node.holds_prefix(m, p) by {
                lemma_holds_prefix_after(old_node, new_node, n, nibble, k, p);
            }
            assert forall|x: Path| node.holds_child(m, x) == old_node.holds_child(m, x) by {}
        } else {
            assert forall|p: Path| #[trigger]
                dom2.contains(p) && in_node(m, node.stride, p) implies node.holds_prefix(m, p) by {
                if p == p0 {
                    lemma_host_of(strides, w, j, m, node.stride, p);
                }
            }
        }
    }
    assert forall|p: Path| #[trigger] dom2.contains(p) implies prefix_ok(nodes2, strides, w, p) by {
        if p != p0 {
            assert(prefix_ok(nodes, strides, w, p));
        }
    }
}

/// The store stays as it should be when the default route is put in the
/// map.
pub proof fn lemma_add_default_route(
    nodes: Map<Path, TreeBitMapNode>,
    dom: Set<Path>,
    strides: Seq<u8>,
    w: nat,
)
    requires
        trie_inv(nodes, dom, dom, strides, w),
    ensures
        trie_inv(nodes, dom.insert(Path::root()), dom.insert(Path::root()), strides, w),
{
    reveal(trie_inv);
    let dom2 = dom.insert(Path::root());
    assert(pow2(0) == 1) by {
        vstd::arithmetic::power2::lemma2_to64();
    }
    assert forall|m: Path| #[trigger] nodes.contains_key(m) implies node_ok(
        nodes,
        dom2,
        dom2,
        strides,
        m,
    ) by {
        assert(node_ok(nodes, dom, dom, strides, m));
        if level_at(strides, m.len) > 0 {
            let wit = choose|p: Path| #[trigger] dom.contains(p) && m.covers(p) && m.len < p.len;
            assert(dom2.contains(wit));
        }
    }
    assert forall|p: Path| #[trigger] dom2.contains(p) implies prefix_ok(nodes, strides, w, p) by {
        if p != Path::root() {
            assert(prefix_ok(nodes, strides, w, p));
        }
    }
}

/// Where a node is in a consistent store, so are the nodes above it.
pub proof fn lemma_ancestor_node(
    nodes: Map<Path, TreeBitMapNode>,
    dom: Set<Path>,
    below: Set<Path>,
    strides: Seq<u8>,
    w: nat,
    h: Path,
    k: nat,
    j: nat,
)
    requires
        trie_inv(nodes, dom, below, strides, w),
        nodes.contains_key(h),
        is_level(strides, k, h.len),
        j <= k,
    ensures
        nodes.contains_key(h.ancestor(stride_start(strides, j))),
    decreases k - j,
{
    reveal(trie_inv);
    if j == k {
        h.lemma_ancestor_self();
    } else {
        assert(node_ok(nodes, dom, below, strides, h));
        lemma_level_unique(strides, w, k, k, h.len);
        let parent = h.ancestor(stride_start(strides, (k - 1) as nat));
        lemma_stride_start_grows(strides, j, (k - 1) as nat);
        lemma_stride_start_grows(strides, (k - 1) as nat, k);
        lemma_ancestor_node(nodes, dom, below, strides, w, parent, (k - 1) as nat, j);
        h.lemma_ancestor_ancestor(stride_start(strides, (k - 1) as nat), stride_start(strides, j));
    }
}

/// Where a prefix is in a consistent store, so are the nodes on the way to
/// it.
pub proof fn lemma_path_nodes(
    nodes: Map<Path, TreeBitMapNode>,
    dom: Set<Path>,
    below: Set<Path>,
    strides: Seq<u8>,
    w: nat,
    p: Path,
    j: nat,
)
    requires
        trie_inv(nodes, dom, below, strides, w),
        dom.contains(p),
        j < strides.len(),
        stride_start(strides, j) < p.len,
    ensures
        nodes.contains_key(p.ancestor(stride_start(strides, j))),
{
    reveal(trie_inv);
    assert(prefix_ok(nodes, strides, w, p));
    lemma_host_exists(strides, w, p.len);
    let k = host_level(strides, p.len);
    let h = p.ancestor(host_start(strides, p.len));
    if k < j {
        lemma_stride_start_grows(strides, k + 1, j);
    }
    lemma_ancestor_node(nodes, dom, below, strides, w, h, k, j);
    lemma_stride_start_grows(strides, j, k);
    p.lemma_ancestor_ancestor(stride_start(strides, k), stride_start(strides, j));
}

/// In a consistent store, the nodes below the root are there for the
/// prefixes below them, and for nothing else.
pub proof fn lemma_node_iff_descendant(
    nodes: Map<Path, TreeBitMapNode>,
    dom: Set<Path>,
    strides: Seq<u8>,
    w: nat,
    c: Path,
    j: nat,
)
    requires
        trie_inv(nodes, dom, dom, strides, w),
        is_level(strides, j, c.len),
        j > 0,
    ensures
        nodes.contains_key(c) == has_descendant(dom, c),
{
    reveal(trie_inv);
    if nodes.contains_key(c) {
        assert(node_ok(nodes, dom, dom, strides, c));
        lemma_level_unique(strides, w, j, j, c.len);
    }
    if has_descendant(dom, c) {
        let p = choose|p: Path| #[trigger] dom.contains(p) && c.covers(p) && c.len < p.len;
        lemma_path_nodes(nodes, dom, dom, strides, w, p, j);
    }
}

/// A prefix that is being inserted may be taken for inserted where the
/// search for a prefix below a node is concerned.
pub proof fn lemma_begin_insert(
    nodes: Map<Path, TreeBitMapNode>,
    dom: Set<Path>,
    strides: Seq<u8>,
    w: nat,
    p0: Path,
)
    requires
        trie_inv(nodes, dom, dom, strides, w),
    ensures
        trie_inv(nodes, dom, dom.insert(p0), strides, w),
{
    reveal(trie_inv);
    let below = dom.insert(p0);
    assert forall|m: Path| #[trigger] nodes.contains_key(m) implies node_ok(
        nodes,
        dom,
        below,
        strides,
        m,
    ) by {
        assert(node_ok(nodes, dom, dom, strides, m));
        if level_at(strides, m.len) > 0 {
            let wit = choose|p: Path| #[trigger] dom.contains(p) && m.covers(p) && m.len < p.len;
            assert(below.contains(wit));
        }
    }
}

/// The store with the root node alone and no prefix is as it should be.
pub proof fn lemma_empty_store(root: TreeBitMapNode, strides: Seq<u8>, w: nat)
    requires
        valid_strides(strides, w),
        strides.len() > 0,
        root.stride == strides[0],
        root.ptrbitarr == 0,
        root.pfxbitarr == 0,
    ensures
        trie_inv(
            Map::<Path, TreeBitMapNode>::empty().insert(Path::root(), root),
            Set::<Path>::empty(),
            Set::<Path>::empty(),
            strides,
            w,
        ),
{
    reveal(trie_inv);
    let nodes = Map::<Path, TreeBitMapNode>::empty().insert(Path::root(), root);
    let dom = Set::<Path>::empty();
    let r = Path::root();
    assert(pow2(0) == 1) by {
        vstd::arithmetic::power2::lemma2_to64();
    }
    assert(is_level(strides, 0, 0));
    lemma_level_unique(strides, w, 0, 0, 0);
    assert forall|p: Path| !root.holds_prefix(r, p) by {
        let k = (p.len - r.len) as nat;
        lemma_empty_bitmaps(crate::stride::pfx_shift(root.stride, p.nibble(r.len, k), k));
    }
    assert forall|x: Path| !root.holds_child(r, x) by {
        lemma_empty_bitmaps(
            crate::stride::ptr_shift(root.stride, x.nibble(r.len, root.stride as nat)),
        );
    }
    assert forall|m: Path| #[trigger] nodes.contains_key(m) implies node_ok(
        nodes,
        dom,
        dom,
        strides,
        m,
    ) by {
        assert(m == r);
        assert forall|x: Path| #[trigger]
            nodes.contains_key(x) && below_node(m, root.stride, x) implies root.holds_child(m, x) by {
            assert(x == r);
        }
    }
}

} // verus!
