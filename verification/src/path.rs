//! The mathematical model of prefixes and node identifiers.
//!
//! A [`Path`] is a string of bits read from the most significant bit of an
//! address downwards: it has a length and the number that its bits spell.
//! Every contract of the store speaks of prefixes and nodes through their
//! paths, so nothing in this model depends on the width of an address.

use vstd::prelude::*;
use vstd::arithmetic::power2::{pow2, lemma_pow2_pos, lemma_pow2_adds};
use vstd::arithmetic::div_mod::{
    lemma_div_denominator, lemma_fundamental_div_mod, lemma_fundamental_div_mod_converse,
    lemma_multiply_divide_lt, lemma_mod_bound,
};

verus! {

/// The first `len` bits of an address, read as the number `value`.
pub struct Path {
    pub value: nat,
    pub len: nat,
}

/// The path of `len` bits that spell `value`.
pub open spec fn path(value: nat, len: nat) -> Path {
    Path { value, len }
}

impl Path {
    /// The number fits in the length.
    pub open spec fn wf(self) -> bool {
        self.value < pow2(self.len)
    }

    /// The empty path: the root of the trie, and the default route.
    pub open spec fn root() -> Path {
        Path { value: 0, len: 0 }
    }

    /// The first `len` bits of this path.
    pub open spec fn ancestor(self, len: nat) -> Path
        recommends
            len <= self.len,
    {
        Path { value: self.value / pow2((self.len - len) as nat), len }
    }

    /// This path followed by the `k` bits of `nibble`.
    pub open spec fn extend(self, nibble: nat, k: nat) -> Path {
        Path { value: self.value * pow2(k) + nibble, len: self.len + k }
    }

    /// The `k` bits of this path that follow its first `start` bits.
    pub open spec fn nibble(self, start: nat, k: nat) -> nat
        recommends
            start + k <= self.len,
    {
        (self.value / pow2((self.len - start - k) as nat)) % pow2(k)
    }

    /// This path is an initial part of `other`, or equal to it.
    pub open spec fn covers(self, other: Path) -> bool {
        self.len <= other.len && other.ancestor(self.len) == self
    }

    /// The order in which lists of prefixes are kept: by length, and among
    /// paths of one length by number.
    pub open spec fn precedes(self, other: Path) -> bool {
        self.len < other.len || (self.len == other.len && self.value < other.value)
    }
}

/// A sequence of paths in strictly ascending order.
pub open spec fn ascending(s: Seq<Path>) -> bool {
    forall|i: int, j: int| 0 <= i < j < s.len() ==> (#[trigger] s[i]).precedes(#[trigger] s[j])
}

/// Whether the `k` bits of `m` begin with the `nl` bits of `nibble`.
pub open spec fn in_span(nibble: nat, nl: nat, m: nat, k: nat) -> bool {
    nl <= k && nibble * pow2((k - nl) as nat) <= m < (nibble + 1) * pow2((k - nl) as nat)
}

proof fn lemma_div_range(m: int, d: int, n: int)
    by (nonlinear_arith)
    requires
        0 <= m,
        0 < d,
        0 <= n,
    ensures
        (m / d == n) == (n * d <= m < (n + 1) * d),
{
    lemma_fundamental_div_mod(m, d);
    lemma_mod_bound(m, d);
}

/// The bits that begin with a nibble are those that give the nibble when the
/// bits behind it are dropped.
pub proof fn lemma_in_span(nibble: nat, nl: nat, m: nat, k: nat)
    requires
        nl <= k,
    ensures
        in_span(nibble, nl, m, k) == (m / pow2((k - nl) as nat) == nibble),
{
    lemma_pow2_pos((k - nl) as nat);
    lemma_div_range(m as int, pow2((k - nl) as nat) as int, nibble as int);
}

/// The bits that begin with a nibble fit their length if the nibble fits
/// its own.
pub proof fn lemma_span_bound(nibble: nat, nl: nat, k: nat)
    requires
        nl <= k,
        nibble < pow2(nl),
    ensures
        (nibble + 1) * pow2((k - nl) as nat) <= pow2(k),
        nibble * pow2((k - nl) as nat) + pow2((k - nl) as nat) == (nibble + 1) * pow2(
            (k - nl) as nat,
        ),
{
    lemma_pow2_adds(nl, (k - nl) as nat);
    lemma_pow2_pos((k - nl) as nat);
    let d = pow2((k - nl) as nat) as int;
    let n = nibble as int;
    let hi = pow2(nl) as int;
    assert((n + 1) * d <= hi * d) by (nonlinear_arith)
        requires
            n + 1 <= hi,
            0 < d,
    ;
    assert(n * d + d == (n + 1) * d) by (nonlinear_arith);
}

proof fn lemma_shift_sum(v: int, m: int, a: int, b: int)
    by (nonlinear_arith)
    requires
        0 <= v,
        0 <= m,
        0 < a,
        0 < b,
    ensures
        (v * (a * b) + m) == (v * a + m / b) * b + m % b,
        0 <= m % b < b,
{
    lemma_fundamental_div_mod(m, b);
    lemma_mod_bound(m, b);
}

proof fn lemma_step_bound(v: int, r: int, hi: int, p: int)
    by (nonlinear_arith)
    requires
        0 <= v < hi,
        0 <= r < p,
    ensures
        v * p + r < hi * p,
{
}

/// The bits of a path that a nibble adds can be taken off again.
pub proof fn lemma_extend_value(v: nat, nibble: nat, k: nat)
    requires
        nibble < pow2(k),
    ensures
        (v * pow2(k) + nibble) / pow2(k) == v,
        (v * pow2(k) + nibble) % pow2(k) == nibble,
{
    lemma_pow2_pos(k);
    lemma_fundamental_div_mod_converse(
        (v * pow2(k) + nibble) as int,
        pow2(k) as int,
        v as int,
        nibble as int,
    );
}

/// Dropping `a` bits and then `b` bits drops `a + b` bits.
pub proof fn lemma_drop_twice(v: nat, a: nat, b: nat)
    ensures
        (v / pow2(a)) / pow2(b) == v / pow2(a + b),
{
    lemma_pow2_pos(a);
    lemma_pow2_pos(b);
    lemma_pow2_adds(a, b);
    lemma_div_denominator(v as int, pow2(a) as int, pow2(b) as int);
}

/// A number of `a + b` bits has `a` bits left when `b` bits are dropped.
pub proof fn lemma_drop_bound(v: nat, a: nat, b: nat)
    requires
        v < pow2(a + b),
    ensures
        v / pow2(b) < pow2(a),
{
    lemma_pow2_pos(b);
    lemma_pow2_adds(b, a);
    lemma_multiply_divide_lt(v as int, pow2(b) as int, pow2(a) as int);
}

impl Path {
    /// Extending a path by a nibble that fits gives a path.
    pub proof fn lemma_extend_wf(self, nibble: nat, k: nat)
        requires
            self.wf(),
            nibble < pow2(k),
        ensures
            self.extend(nibble, k).wf(),
    {
        lemma_pow2_adds(self.len, k);
        lemma_step_bound(
            self.value as int,
            nibble as int,
            pow2(self.len) as int,
            pow2(k) as int,
        );
    }

    /// The first bits of a path are a path.
    pub proof fn lemma_ancestor_wf(self, len: nat)
        requires
            self.wf(),
            len <= self.len,
        ensures
            self.ancestor(len).wf(),
    {
        lemma_drop_bound(self.value, len, (self.len - len) as nat);
    }

    /// All the bits of a path are the path itself.
    pub proof fn lemma_ancestor_self(self)
        ensures
            self.ancestor(self.len) == self,
    {
        assert(pow2(0) == 1) by {
            vstd::arithmetic::power2::lemma2_to64();
        }
        assert((self.len - self.len) as nat == 0);
        assert(self.value / 1 == self.value);
    }

    /// The first bits of the first bits.
    pub proof fn lemma_ancestor_ancestor(self, mid: nat, len: nat)
        requires
            len <= mid <= self.len,
        ensures
            self.ancestor(mid).ancestor(len) == self.ancestor(len),
    {
        lemma_drop_twice(self.value, (self.len - mid) as nat, (mid - len) as nat);
    }

    /// An extended path begins with the path that was extended.
    pub proof fn lemma_extend_ancestor(self, nibble: nat, k: nat)
        requires
            nibble < pow2(k),
        ensures
            self.extend(nibble, k).ancestor(self.len) == self,
    {
        lemma_extend_value(self.value, nibble, k);
    }

    /// The nibbles of a path are what takes one of its ancestors to the next.
    pub proof fn lemma_ancestor_extend(self, start: nat, k: nat)
        requires
            start + k <= self.len,
        ensures
            self.nibble(start, k) < pow2(k),
            self.ancestor(start).extend(self.nibble(start, k), k) == self.ancestor(start + k),
    {
        let rest = (self.len - start - k) as nat;
        let y = self.value / pow2(rest);
        lemma_pow2_pos(k);
        lemma_drop_twice(self.value, rest, k);
        lemma_fundamental_div_mod(y as int, pow2(k) as int);
        lemma_mod_bound(y as int, pow2(k) as int);
        assert(pow2(k) * (y / pow2(k)) == (y / pow2(k)) * pow2(k)) by (nonlinear_arith);
    }

    /// An ancestor that holds a nibble whole holds it unchanged.
    pub proof fn lemma_ancestor_nibble(self, len: nat, start: nat, k: nat)
        requires
            start + k <= len <= self.len,
        ensures
            self.ancestor(len).nibble(start, k) == self.nibble(start, k),
    {
        lemma_drop_twice(self.value, (self.len - len) as nat, (len - start - k) as nat);
    }

    /// A path is its ancestor followed by the rest of its bits.
    pub proof fn lemma_split(self, len: nat)
        requires
            len <= self.len,
        ensures
            self.nibble(len, (self.len - len) as nat) < pow2((self.len - len) as nat),
            self == self.ancestor(len).extend(
                self.nibble(len, (self.len - len) as nat),
                (self.len - len) as nat,
            ),
    {
        self.lemma_ancestor_extend(len, (self.len - len) as nat);
        self.lemma_ancestor_self();
    }

    /// The nibble that extended a path is the nibble found behind that path.
    pub proof fn lemma_extend_nibble(self, nibble: nat, k: nat)
        requires
            nibble < pow2(k),
        ensures
            self.extend(nibble, k).nibble(self.len, k) == nibble,
    {
        lemma_extend_value(self.value, nibble, k);
        assert(pow2(0) == 1) by {
            vstd::arithmetic::power2::lemma2_to64();
        }
        let v = self.extend(nibble, k).value;
        assert(v / 1 == v);
    }

    /// An ancestor of an extended path that lies within the nibble keeps the
    /// first bits of the nibble.
    pub proof fn lemma_extend_ancestor_within(self, nibble: nat, k: nat, j: nat)
        requires
            j <= k,
            nibble < pow2(k),
        ensures
            self.extend(nibble, k).ancestor(self.len + j) == self.extend(
                nibble / pow2((k - j) as nat),
                j,
            ),
            nibble / pow2((k - j) as nat) < pow2(j),
    {
        let d = (k - j) as nat;
        lemma_pow2_pos(d);
        lemma_pow2_pos(j);
        lemma_pow2_adds(j, d);
        lemma_shift_sum(self.value as int, nibble as int, pow2(j) as int, pow2(d) as int);
        lemma_fundamental_div_mod_converse(
            (self.value * pow2(k) + nibble) as int,
            pow2(d) as int,
            (self.value * pow2(j) + nibble / pow2(d)) as int,
            (nibble % pow2(d)) as int,
        );
        lemma_drop_bound(nibble, j, d);
    }

    /// Paths that were extended by nibbles of one length and came out equal
    /// were equal, and so were the nibbles.
    pub proof fn lemma_extend_injective(self, a: nat, other: Path, b: nat, k: nat)
        requires
            a < pow2(k),
            b < pow2(k),
            self.extend(a, k) == other.extend(b, k),
        ensures
            self == other,
            a == b,
    {
        lemma_extend_value(self.value, a, k);
        lemma_extend_value(other.value, b, k);
    }

    /// Among the paths that extend one path by nibbles of one length, the
    /// order of the nibbles is the order of the paths.
    pub proof fn lemma_extend_ordered(self, a: nat, other: Path, b: nat, k: nat)
        requires
            a < pow2(k),
            b < pow2(k),
            self.len == other.len,
            self.value < other.value || (self.value == other.value && a < b),
        ensures
            self.extend(a, k).precedes(other.extend(b, k)),
    {
        if self.value < other.value {
            lemma_step_bound(
                self.value as int,
                a as int,
                other.value as int,
                pow2(k) as int,
            );
        }
    }

    /// Of the paths that nibbles lead to from one path, one covers another
    /// where its nibble begins the other's.
    pub proof fn lemma_covers_extended(self, nibble: nat, nl: nat, m: nat, k: nat)
        requires
            nibble < pow2(nl),
            m < pow2(k),
        ensures
            self.extend(nibble, nl).covers(self.extend(m, k)) == in_span(nibble, nl, m, k),
    {
        if nl <= k {
            self.lemma_extend_ancestor_within(m, k, nl);
            lemma_in_span(nibble, nl, m, k);
            let short = m / pow2((k - nl) as nat);
            if self.extend(short, nl) == self.extend(nibble, nl) {
                self.lemma_extend_injective(short, self, nibble, nl);
            }
        }
    }

    /// A path extended by no bits is the path.
    pub proof fn lemma_extend_nothing(self)
        ensures
            self.extend(0, 0) == self,
    {
        assert(pow2(0) == 1) by {
            vstd::arithmetic::power2::lemma2_to64();
        }
        assert(self.value * 1 + 0 == self.value);
    }

    /// Of two paths of one length, the one under the smaller ancestor is the
    /// smaller.
    pub proof fn lemma_under_ordered(self, other: Path, len: nat)
        requires
            self.len == other.len,
            len <= self.len,
            self.ancestor(len).value < other.ancestor(len).value,
        ensures
            self.value < other.value,
    {
        let d = (self.len - len) as nat;
        lemma_pow2_pos(d);
        if self.value >= other.value {
            vstd::arithmetic::div_mod::lemma_div_is_ordered(
                other.value as int,
                self.value as int,
                pow2(d) as int,
            );
        }
    }

    /// What a path covers and is not, is longer than the path.
    pub proof fn lemma_covers_longer(self, other: Path)
        requires
            self.covers(other),
            self != other,
        ensures
            self.len < other.len,
    {
        other.lemma_ancestor_self();
    }

    /// What covers an ancestor of a path covers the path, and the other way
    /// round if the ancestor is long enough.
    pub proof fn lemma_covers_ancestor(self, other: Path, len: nat)
        requires
            self.len <= len <= other.len,
        ensures
            self.covers(other.ancestor(len)) == self.covers(other),
    {
        other.lemma_ancestor_ancestor(len, self.len);
    }

    /// Every path covers itself.
    pub proof fn lemma_covers_self(self)
        ensures
            self.covers(self),
    {
        self.lemma_ancestor_self();
    }

    /// What covers a path covers all that the path covers.
    pub proof fn lemma_covers_transitive(self, mid: Path, other: Path)
        requires
            self.covers(mid),
            mid.covers(other),
        ensures
            self.covers(other),
    {
        other.lemma_ancestor_ancestor(mid.len, self.len);
    }

    /// The root covers every path that is well formed.
    pub proof fn lemma_root_covers(self)
        requires
            self.wf(),
        ensures
            Path::root().covers(self),
    {
        lemma_pow2_pos(self.len);
        vstd::arithmetic::div_mod::lemma_basic_div(self.value as int, pow2(self.len) as int);
    }
}

/// A sequence of paths in which those of one length are in ascending order.
pub open spec fn lenwise_ascending(s: Seq<Path>) -> bool {
    forall|i: int, j: int|
        0 <= i < j < s.len() && (#[trigger] s[i]).len == (#[trigger] s[j]).len ==> s[i].value
            < s[j].value
}

/// An ascending sequence followed by one that it precedes is ascending.
pub proof fn lemma_concat_ascending(s1: Seq<Path>, s2: Seq<Path>)
    requires
        ascending(s1),
        ascending(s2),
        forall|i: int, j: int|
            0 <= i < s1.len() && 0 <= j < s2.len() ==> (#[trigger] s1[i]).precedes(#[trigger] s2[j]),
    ensures
        ascending(s1 + s2),
{
    let t = s1 + s2;
    assert forall|i: int, j: int| 0 <= i < j < t.len() implies (#[trigger] t[i]).precedes(
        #[trigger] t[j],
    ) by {
        if j < s1.len() {
            assert(t[i] == s1[i] && t[j] == s1[j]);
        } else if i < s1.len() {
            assert(t[i] == s1[i] && t[j] == s2[j - s1.len()]);
        } else {
            assert(t[i] == s2[i - s1.len()] && t[j] == s2[j - s1.len()]);
        }
    }
}

/// A sequence in which the paths of one length ascend, followed by an
/// ascending one whose paths are greater than those of their length in the
/// first, is one in which the paths of one length ascend.
pub proof fn lemma_concat_lenwise(s1: Seq<Path>, s2: Seq<Path>)
    requires
        lenwise_ascending(s1),
        ascending(s2),
        forall|i: int, j: int|
            0 <= i < s1.len() && 0 <= j < s2.len() && (#[trigger] s1[i]).len == (
            #[trigger] s2[j]).len ==> s1[i].value < s2[j].value,
    ensures
        lenwise_ascending(s1 + s2),
{
    let t = s1 + s2;
    assert forall|i: int, j: int|
        0 <= i < j < t.len() && (#[trigger] t[i]).len == (#[trigger] t[j]).len implies t[i].value
        < t[j].value by {
        if j < s1.len() {
            assert(t[i] == s1[i] && t[j] == s1[j]);
        } else if i < s1.len() {
            assert(t[i] == s1[i] && t[j] == s2[j - s1.len()]);
        } else {
            assert(t[i] == s2[i - s1.len()] && t[j] == s2[j - s1.len()]);
            assert(s2[i - s1.len()].precedes(s2[j - s1.len()]));
        }
    }
}

/// What is in one of two sequences is in the two put together, and nothing
/// else is.
pub proof fn lemma_concat_contains(s1: Seq<Path>, s2: Seq<Path>)
    ensures
        forall|p: Path| #[trigger] (s1 + s2).contains(p) <==> s1.contains(p) || s2.contains(p),
{
    let t = s1 + s2;
    assert forall|p: Path| #[trigger] t.contains(p) <==> s1.contains(p) || s2.contains(p) by {
        if s1.contains(p) {
            let i = choose|i: int| 0 <= i < s1.len() && s1[i] == p;
            assert(t[i] == p);
        }
        if s2.contains(p) {
            let i = choose|i: int| 0 <= i < s2.len() && s2[i] == p;
            assert(t[i + s1.len()] == p);
        }
        if t.contains(p) {
            let i = choose|i: int| 0 <= i < t.len() && t[i] == p;
            if i < s1.len() {
                assert(s1[i] == p);
            } else {
                assert(s2[i - s1.len()] == p);
            }
        }
    }
}

/// The first `j + 1` paths of a sequence are the first `j` and the next
/// one, which the first `j` precede if the sequence is ascending.
pub proof fn lemma_take_step(s: Seq<Path>, j: int)
    requires
        0 <= j < s.len(),
    ensures
        forall|p: Path| #[trigger] s.take(j + 1).contains(p) <==> s.take(j).contains(p) || p == s[j],
        ascending(s) ==> forall|p: Path| #[trigger] s.take(j).contains(p) ==> p.precedes(s[j]),
        lenwise_ascending(s) ==> forall|p: Path|
            #[trigger] s.take(j).contains(p) && p.len == s[j].len ==> p.value < s[j].value,
        forall|p: Path| #[trigger] s.take(j).contains(p) ==> s.contains(p),
{
    let a = s.take(j);
    let b = s.take(j + 1);
    assert forall|p: Path| #[trigger] b.contains(p) <==> a.contains(p) || p == s[j] by {
        if a.contains(p) {
            let i = choose|i: int| 0 <= i < a.len() && a[i] == p;
            assert(b[i] == p);
        }
        if p == s[j] {
            assert(b[j] == p);
        }
        if b.contains(p) {
            let i = choose|i: int| 0 <= i < b.len() && b[i] == p;
            if i < j {
                assert(a[i] == p);
            }
        }
    }
    if ascending(s) {
        assert forall|p: Path| #[trigger] a.contains(p) implies p.precedes(s[j]) by {
            let i = choose|i: int| 0 <= i < a.len() && a[i] == p;
            assert(s[i] == p);
        }
    }
    if lenwise_ascending(s) {
        assert forall|p: Path| #[trigger] a.contains(p) && p.len == s[j].len implies p.value
            < s[j].value by {
            let i = choose|i: int| 0 <= i < a.len() && a[i] == p;
            assert(s[i] == p);
        }
    }
    assert forall|p: Path| #[trigger] a.contains(p) implies s.contains(p) by {
        let i = choose|i: int| 0 <= i < a.len() && a[i] == p;
        assert(s[i] == p);
    }
}

/// None of a sequence is nothing, and all of it is the sequence.
pub proof fn lemma_take_ends(s: Seq<Path>)
    ensures
        s.take(0) == Seq::<Path>::empty(),
        s.take(s.len() as int) == s,
        forall|p: Path| !#[trigger] s.take(0).contains(p),
{
    assert(s.take(0) =~= Seq::<Path>::empty());
    assert(s.take(s.len() as int) =~= s);
}

/// Adding to an ascending sequence a path that all of it precedes.
pub proof fn lemma_push_ascending(s: Seq<Path>, x: Path)
    requires
        ascending(s),
        forall|i: int| 0 <= i < s.len() ==> (#[trigger] s[i]).precedes(x),
    ensures
        ascending(s.push(x)),
        forall|p: Path| #[trigger] s.push(x).contains(p) <==> s.contains(p) || p == x,
{
    let t = s.push(x);
    assert forall|p: Path| #[trigger] t.contains(p) <==> s.contains(p) || p == x by {
        if s.contains(p) {
            let i = choose|i: int| 0 <= i < s.len() && s[i] == p;
            assert(t[i] == p);
        }
        if p == x {
            assert(t[s.len() as int] == x);
        }
    }
}

} // verus!
