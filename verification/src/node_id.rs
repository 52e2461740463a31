//! The identifiers of prefixes and of trie nodes.
//!
//! Both are an address and a length. The address holds the bits of the
//! identifier at its most significant end and zeros behind them. Nothing is
//! stored in a node to say where it is in the trie: its identifier is
//! computed from the path that leads to it.

use vstd::prelude::*;
use vstd::arithmetic::power2::{pow2, lemma_pow2_pos};
use vstd::arithmetic::div_mod::{lemma_fundamental_div_mod, lemma_div_multiples_vanish};
use crate::af::{AddressFamily, is_truncated, truncate_spec, nibble_spec, lemma_add_nibble, head_of};
use crate::path::{Path, lemma_drop_twice, lemma_drop_bound};

verus! {

/// The path that the first `len` bits of the `w`-bit number `x` spell.
pub open spec fn path_of(x: nat, w: nat, len: nat) -> Path
    recommends
        len <= w,
{
    Path { value: x / pow2((w - len) as nat), len }
}

/// The path of a number that fits its width is well formed.
pub proof fn lemma_path_of_wf(x: nat, w: nat, len: nat)
    requires
        len <= w,
        x < pow2(w),
    ensures
        path_of(x, w, len).wf(),
{
    lemma_drop_bound(x, len, (w - len) as nat);
}

/// Truncating a number takes its path to the ancestor of that length.
pub proof fn lemma_path_of_truncated(x: nat, w: nat, len: nat, shorter: nat)
    requires
        shorter <= len <= w,
    ensures
        path_of(truncate_spec(x, w, shorter), w, shorter) == path_of(x, w, len).ancestor(shorter),
        path_of(x, w, shorter) == path_of(x, w, len).ancestor(shorter),
{
    let s = (w - shorter) as nat;
    lemma_pow2_pos(s);
    lemma_div_multiples_vanish((x / pow2(s)) as int, pow2(s) as int);
    assert((x / pow2(s)) * pow2(s) == pow2(s) * (x / pow2(s))) by (nonlinear_arith);
    lemma_drop_twice(x, (w - len) as nat, (len - shorter) as nat);
}

/// The nibbles of a number are the nibbles of its path.
pub proof fn lemma_path_of_nibble(x: nat, w: nat, len: nat, start: nat, k: nat)
    requires
        start + k <= len <= w,
    ensures
        nibble_spec(x, w, start, k) == path_of(x, w, len).nibble(start, k),
{
    lemma_drop_twice(x, (w - len) as nat, (len - start - k) as nat);
}

/// Truncated numbers with one path are one number.
pub proof fn lemma_path_of_injective(x: nat, y: nat, w: nat, len: nat)
    requires
        len <= w,
        is_truncated(x, w, len),
        is_truncated(y, w, len),
        path_of(x, w, len) == path_of(y, w, len),
    ensures
        x == y,
{
    let s = (w - len) as nat;
    lemma_pow2_pos(s);
    lemma_fundamental_div_mod(x as int, pow2(s) as int);
    lemma_fundamental_div_mod(y as int, pow2(s) as int);
}

/// The identifier of a prefix: its address bits and its length.
#[derive(Clone, Copy, Debug, PartialEq, Eq)]
pub struct PrefixId<AF: AddressFamily> {
    pub net: AF,
    pub len: u8,
}

impl<AF: AddressFamily> View for PrefixId<AF> {
    type V = Path;

    open spec fn view(&self) -> Path {
        path_of(self.net.as_nat(), AF::width(), self.len as nat)
    }
}

impl<AF: AddressFamily> PrefixId<AF> {
    /// The length is within the family's width and the bits behind it are
    /// zero.
    pub open spec fn wf(self) -> bool {
        &&& self.len <= AF::width()
        &&& is_truncated(self.net.as_nat(), AF::width(), self.len as nat)
    }

    /// The identifier of the prefix with these bits and this length.
    pub fn new(net: AF, len: u8) -> (r: Self)
        ensures
            r.net == net,
            r.len == len,
    {
        PrefixId { net, len }
    }

    /// The identifier of the prefix of this length that `net` lies in, or
    /// nothing if the length is beyond the family's width.
    pub fn new_relaxed(net: AF, len: u8) -> (r: Option<Self>)
        ensures
            r.is_some() == (len <= AF::width()),
            r matches Some(id) ==> id.wf() && id.len == len && id.net.as_nat() == truncate_spec(
                net.as_nat(),
                AF::width(),
                len as nat,
            ),
    {
        if len <= AF::bits() {
            Some(PrefixId { net: net.truncate_to_len(len), len })
        } else {
            None
        }
    }

    /// Whether the identifier is well formed.
    pub fn is_valid(&self) -> (r: bool)
        ensures
            r == self.wf(),
    {
        if self.len > AF::bits() {
            return false;
        }
        let t = self.net.truncate_to_len(self.len);
        proof {
            let s = (AF::width() - self.len) as nat;
            let x = self.net.as_nat();
            lemma_pow2_pos(s);
            lemma_fundamental_div_mod(x as int, pow2(s) as int);
            assert(pow2(s) * (x / pow2(s)) == (x / pow2(s)) * pow2(s)) by (nonlinear_arith);
        }
        t.into_u128() == self.net.into_u128()
    }

    /// The address bits.
    pub fn get_net(&self) -> (r: AF)
        ensures
            r == self.net,
    {
        self.net
    }

    /// The length.
    pub fn get_len(&self) -> (r: u8)
        ensures
            r == self.len,
    {
        self.len
    }

    /// The number that the bits of the prefix spell.
    pub fn path_value(&self) -> (r: u128)
        requires
            self.wf(),
        ensures
            r as nat == self@.value,
    {
        proof {
            AF::lemma_width();
        }
        head_of(self.net.into_u128(), AF::bits(), self.len)
    }

    /// The prefix of length `len` that covers this one.
    pub fn ancestor(&self, len: u8) -> (r: Self)
        requires
            self.wf(),
            len <= self.len,
        ensures
            r.wf(),
            r@ == self@.ancestor(len as nat),
    {
        proof {
            lemma_path_of_truncated(
                self.net.as_nat(),
                AF::width(),
                self.len as nat,
                len as nat,
            );
        }
        PrefixId { net: self.net.truncate_to_len(len), len }
    }

    /// Whether two identifiers are the same.
    pub fn same(&self, other: &Self) -> (r: bool)
        requires
            self.wf(),
            other.wf(),
        ensures
            r == (self@ == other@),
            r == (*self == *other),
    {
        proof {
            if self.len == other.len {
                if self@ == other@ {
                    lemma_path_of_injective(
                        self.net.as_nat(),
                        other.net.as_nat(),
                        AF::width(),
                        self.len as nat,
                    );
                }
                if self.net.as_nat() == other.net.as_nat() {
                    self.net.lemma_injective(other.net);
                }
            }
        }
        self.len == other.len && self.net.into_u128() == other.net.into_u128()
    }

    /// The path of a well-formed identifier is well formed.
    pub proof fn lemma_view_wf(self)
        requires
            self.wf(),
        ensures
            self@.wf(),
            self@.len == self.len,
            self@.len <= AF::width(),
    {
        self.net.lemma_as_nat();
        lemma_path_of_wf(self.net.as_nat(), AF::width(), self.len as nat);
    }

    /// Well-formed identifiers with one path are one identifier.
    pub proof fn lemma_view_injective(self, other: Self)
        requires
            self.wf(),
            other.wf(),
            self@ == other@,
        ensures
            self == other,
    {
        lemma_path_of_injective(
            self.net.as_nat(),
            other.net.as_nat(),
            AF::width(),
            self.len as nat,
        );
        self.net.lemma_injective(other.net);
    }
}

/// The paths of a sequence of prefix identifiers.
pub open spec fn paths_of<AF: AddressFamily>(v: Seq<PrefixId<AF>>) -> Seq<Path> {
    Seq::new(v.len(), |i: int| v[i]@)
}

/// Every identifier of the sequence is well formed.
pub open spec fn all_wf<AF: AddressFamily>(v: Seq<PrefixId<AF>>) -> bool {
    forall|i: int| 0 <= i < v.len() ==> (#[trigger] v[i]).wf()
}

/// The paths of a sequence with one more identifier.
pub proof fn lemma_paths_of_push<AF: AddressFamily>(v: Seq<PrefixId<AF>>, p: PrefixId<AF>)
    ensures
        paths_of(v.push(p)) == paths_of(v).push(p@),
        all_wf(v) && p.wf() ==> all_wf(v.push(p)),
{
    assert(paths_of(v.push(p)) =~= paths_of(v).push(p@));
}

/// The paths of two sequences put together.
pub proof fn lemma_paths_of_concat<AF: AddressFamily>(v1: Seq<PrefixId<AF>>, v2: Seq<PrefixId<AF>>)
    ensures
        paths_of(v1 + v2) == paths_of(v1) + paths_of(v2),
        all_wf(v1) && all_wf(v2) ==> all_wf(v1 + v2),
{
    assert(paths_of(v1 + v2) =~= paths_of(v1) + paths_of(v2));
}

/// The identifier of a node of the trie: the bits of the path that leads to
/// it, and their number.
#[derive(Clone, Copy, Debug, PartialEq, Eq)]
pub struct StrideNodeId<AF: AddressFamily> {
    pub net: AF,
    pub len: u8,
}

impl<AF: AddressFamily> View for StrideNodeId<AF> {
    type V = Path;

    open spec fn view(&self) -> Path {
        path_of(self.net.as_nat(), AF::width(), self.len as nat)
    }
}

impl<AF: AddressFamily> StrideNodeId<AF> {
    /// The length is within the family's width and the bits behind it are
    /// zero.
    pub open spec fn wf(self) -> bool {
        &&& self.len <= AF::width()
        &&& is_truncated(self.net.as_nat(), AF::width(), self.len as nat)
    }

    /// The identifier of the root of the trie.
    pub fn root() -> (r: Self)
        ensures
            r.wf(),
            r@ == Path::root(),
    {
        let r = StrideNodeId { net: AF::zero(), len: 0 };
        proof {
            AF::lemma_width();
            lemma_pow2_pos(AF::width());
        }
        r
    }

    /// The identifier of the node that the first `len` bits of `addr_bits`
    /// lead to.
    pub fn new_with_cleaned_id(addr_bits: AF, len: u8) -> (r: Self)
        requires
            len <= AF::width(),
        ensures
            r.wf(),
            r.len == len,
            r.net.as_nat() == truncate_spec(addr_bits.as_nat(), AF::width(), len as nat),
            r@ == path_of(addr_bits.as_nat(), AF::width(), len as nat),
    {
        proof {
            lemma_path_of_truncated(addr_bits.as_nat(), AF::width(), len as nat, len as nat);
            path_of(addr_bits.as_nat(), AF::width(), len as nat).lemma_ancestor_self();
        }
        StrideNodeId { net: addr_bits.truncate_to_len(len), len }
    }

    /// The address bits and the length.
    pub fn get_id(&self) -> (r: (AF, u8))
        ensures
            r == (self.net, self.len),
    {
        (self.net, self.len)
    }

    /// The length.
    pub fn get_len(&self) -> (r: u8)
        ensures
            r == self.len,
    {
        self.len
    }

    /// The number that the bits of the identifier spell.
    pub fn path_value(&self) -> (r: u128)
        requires
            self.wf(),
        ensures
            r as nat == self@.value,
    {
        proof {
            AF::lemma_width();
        }
        head_of(self.net.into_u128(), AF::bits(), self.len)
    }

    /// The identifier that `nibble` leads to from this one.
    pub fn add_nibble(&self, nibble: u32, nibble_len: u8) -> (r: Self)
        requires
            self.wf(),
            self.len + nibble_len <= AF::width(),
            (nibble as nat) < pow2(nibble_len as nat),
        ensures
            r.wf(),
            r@ == self@.extend(nibble as nat, nibble_len as nat),
    {
        proof {
            self.net.lemma_as_nat();
            lemma_add_nibble(
                self.net.as_nat(),
                AF::width(),
                self.len as nat,
                nibble as nat,
                nibble_len as nat,
            );
        }
        let (net, len) = self.net.add_nibble(self.len, nibble, nibble_len);
        StrideNodeId { net, len }
    }

    /// The prefix that has the bits of this identifier.
    pub fn into_prefix_id(self) -> (r: PrefixId<AF>)
        ensures
            r.net == self.net,
            r.len == self.len,
            r@ == self@,
            r.wf() == self.wf(),
    {
        PrefixId { net: self.net, len: self.len }
    }

    /// The path of a well-formed identifier is well formed.
    pub proof fn lemma_view_wf(self)
        requires
            self.wf(),
        ensures
            self@.wf(),
            self@.len == self.len,
    {
        self.net.lemma_as_nat();
        lemma_path_of_wf(self.net.as_nat(), AF::width(), self.len as nat);
    }
}

/// The paths of a sequence of node identifiers.
pub open spec fn node_paths_of<AF: AddressFamily>(v: Seq<StrideNodeId<AF>>) -> Seq<Path> {
    Seq::new(v.len(), |i: int| v[i]@)
}

/// Every identifier of the sequence is well formed.
pub open spec fn all_nodes_wf<AF: AddressFamily>(v: Seq<StrideNodeId<AF>>) -> bool {
    forall|i: int| 0 <= i < v.len() ==> (#[trigger] v[i]).wf()
}

/// The paths of a sequence with one more identifier.
pub proof fn lemma_node_paths_of_push<AF: AddressFamily>(
    v: Seq<StrideNodeId<AF>>,
    c: StrideNodeId<AF>,
)
    ensures
        node_paths_of(v.push(c)) == node_paths_of(v).push(c@),
        all_nodes_wf(v) && c.wf() ==> all_nodes_wf(v.push(c)),
{
    assert(node_paths_of(v.push(c)) =~= node_paths_of(v).push(c@));
}

/// The paths of two sequences put together.
pub proof fn lemma_node_paths_of_concat<AF: AddressFamily>(
    v1: Seq<StrideNodeId<AF>>,
    v2: Seq<StrideNodeId<AF>>,
)
    ensures
        node_paths_of(v1 + v2) == node_paths_of(v1) + node_paths_of(v2),
        all_nodes_wf(v1) && all_nodes_wf(v2) ==> all_nodes_wf(v1 + v2),
{
    assert(node_paths_of(v1 + v2) =~= node_paths_of(v1) + node_paths_of(v2));
}

} // verus!
