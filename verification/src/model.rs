//! What a query finds, stated over a set of paths.
//!
//! The functions here say which of the ancestors of a path are in a set.
//! They are used twice: with the set of prefixes that one node holds, to say
//! what a search of that node returns, and with the set of all prefixes in
//! the store, to say what a query returns.

use vstd::prelude::*;
use crate::levels::stride_start;
use crate::options::MatchType;
use crate::path::{Path, ascending};

verus! {

/// The longest ancestor of `q` that is in `s`, among those longer than `lo`
/// and no longer than `hi`.
pub open spec fn longest_in(s: Set<Path>, q: Path, lo: nat, hi: nat) -> Option<Path>
    recommends
        hi <= q.len,
    decreases hi,
{
    if hi <= lo {
        None
    } else if s.contains(q.ancestor(hi)) {
        Some(q.ancestor(hi))
    } else {
        longest_in(s, q, lo, (hi - 1) as nat)
    }
}

/// The ancestors of `q` that are in `s`, among those longer than `lo` and no
/// longer than `hi`, from the shortest to the longest.
pub open spec fn ancestors_in(s: Set<Path>, q: Path, lo: nat, hi: nat) -> Seq<Path>
    recommends
        hi <= q.len,
    decreases hi,
{
    if hi <= lo {
        Seq::empty()
    } else if s.contains(q.ancestor(hi)) {
        ancestors_in(s, q, lo, (hi - 1) as nat).push(q.ancestor(hi))
    } else {
        ancestors_in(s, q, lo, (hi - 1) as nat)
    }
}

/// `p` is in `s` and lies under `q` without being `q`.
pub open spec fn is_more_specific_in(s: Set<Path>, q: Path, p: Path) -> bool {
    s.contains(p) && q.covers(p) && p != q
}

/// `list` holds exactly the paths of `s` that lie under `q`, each once, in
/// ascending order.
pub open spec fn lists_more_specifics(list: Seq<Path>, s: Set<Path>, q: Path) -> bool {
    &&& ascending(list)
    &&& forall|p: Path| #[trigger] list.contains(p) <==> is_more_specific_in(s, q, p)
}

/// The ancestors of `q` shorter than `hi` that are in `s`, the empty path
/// among them, from the shortest to the longest.
pub open spec fn strict_ancestors_in(s: Set<Path>, q: Path, hi: nat) -> Seq<Path>
    recommends
        hi <= q.len,
    decreases hi,
{
    if hi == 0 {
        Seq::empty()
    } else if s.contains(q.ancestor((hi - 1) as nat)) {
        strict_ancestors_in(s, q, (hi - 1) as nat).push(q.ancestor((hi - 1) as nat))
    } else {
        strict_ancestors_in(s, q, (hi - 1) as nat)
    }
}

/// The longest ancestor of `q` shorter than `hi` that is in `s`.
pub open spec fn longest_strict_ancestor(s: Set<Path>, q: Path, hi: nat) -> Option<Path>
    recommends
        hi <= q.len,
    decreases hi,
{
    if hi == 0 {
        None
    } else if s.contains(q.ancestor((hi - 1) as nat)) {
        Some(q.ancestor((hi - 1) as nat))
    } else {
        longest_strict_ancestor(s, q, (hi - 1) as nat)
    }
}

/// The prefix that a look-up of `q` in the maps of the store finds: `q`
/// itself if it is there, and else the longest prefix that covers it, the
/// default route not excepted.
pub open spec fn direct_match(dom: Set<Path>, q: Path) -> Option<Path> {
    if dom.contains(q) {
        Some(q)
    } else {
        longest_strict_ancestor(dom, q, q.len)
    }
}

/// The prefix that the less- and more-specifics of a look-up in the maps
/// are those of: the prefix that was found, and the search prefix if none
/// was.
pub open spec fn direct_anchor(dom: Set<Path>, q: Path) -> Path {
    match direct_match(dom, q) {
        Some(p) => p,
        None => q,
    }
}

/// Whether a prefix of `dom` lies below `n`.
pub open spec fn has_descendant(dom: Set<Path>, n: Path) -> bool {
    exists|p: Path| #[trigger] dom.contains(p) && n.covers(p) && n.len < p.len
}

/// The level at which the walk down the trie for `q` ends, if it has come
/// to the level `i`: the level that holds `q`, or an earlier one below which
/// the store has nothing on the way to `q`.
pub open spec fn stop_level(dom: Set<Path>, strides: Seq<u8>, q: Path, i: nat) -> nat
    decreases strides.len() - i,
{
    if i + 1 >= strides.len() || q.len <= stride_start(strides, i + 1) || !has_descendant(
        dom,
        q.ancestor(stride_start(strides, i + 1)),
    ) {
        i
    } else {
        stop_level(dom, strides, q, i + 1)
    }
}

/// The ancestors of `q` in `dom` that end where one of the first `i` levels
/// ends, from the shortest to the longest.
pub open spec fn boundary_ancestors(dom: Set<Path>, strides: Seq<u8>, q: Path, i: nat) -> Seq<Path>
    decreases i,
{
    if i == 0 {
        Seq::empty()
    } else if dom.contains(q.ancestor(stride_start(strides, i))) {
        boundary_ancestors(dom, strides, q, (i - 1) as nat).push(
            q.ancestor(stride_start(strides, i)),
        )
    } else {
        boundary_ancestors(dom, strides, q, (i - 1) as nat)
    }
}

/// The end of the part of `q` that the level `i` sees.
pub open spec fn seen_end(strides: Seq<u8>, q: Path, i: nat) -> nat {
    if q.len < stride_start(strides, i + 1) {
        q.len
    } else {
        stride_start(strides, i + 1)
    }
}

/// The prefix that a walk down the trie for `q`, which is not the default
/// route, returns.
///
/// For an exact match it is `q`, if it is in the store. For a longest match
/// it is the longest prefix in the store that covers `q`, the default route
/// apart. Where no match is asked for, it is such a prefix only if it is
/// held at the level where the walk ends.
pub open spec fn walk_prefix(dom: Set<Path>, strides: Seq<u8>, q: Path, match_type: MatchType) -> Option<
    Path,
> {
    let s = stop_level(dom, strides, q, 0);
    match match_type {
        MatchType::ExactMatch => if dom.contains(q) {
            Some(q)
        } else {
            None
        },
        MatchType::LongestMatch => longest_in(dom, q, 0, q.len),
        MatchType::EmptyMatch => longest_in(dom, q, stride_start(strides, s), seen_end(strides, q, s)),
    }
}

/// The less-specifics that a walk down the trie for `q` returns, where they
/// are asked for.
///
/// With an exact match they are the prefixes in the store that cover `q`,
/// `q` among them and the default route apart, and none if `q` is not in
/// the store. Otherwise they are the prefixes that cover `q`, end where a
/// level ends, and have a node below them on the way to `q`.
pub open spec fn walk_less_specifics(
    dom: Set<Path>,
    strides: Seq<u8>,
    q: Path,
    match_type: MatchType,
) -> Seq<Path> {
    match match_type {
        MatchType::ExactMatch => if dom.contains(q) {
            ancestors_in(dom, q, 0, q.len)
        } else {
            Seq::empty()
        },
        _ => boundary_ancestors(dom, strides, q, stop_level(dom, strides, q, 0)),
    }
}

/// Whether a walk down the trie for `q` collects the more-specifics, where
/// they are asked for: with an exact match if `q` is in the store, with a
/// longest match if a prefix that covers `q` is held at the level where the
/// walk ends, and always where no match is asked for.
pub open spec fn walk_collects_more(
    dom: Set<Path>,
    strides: Seq<u8>,
    q: Path,
    match_type: MatchType,
) -> bool {
    let s = stop_level(dom, strides, q, 0);
    match match_type {
        MatchType::ExactMatch => dom.contains(q),
        MatchType::LongestMatch => longest_in(
            dom,
            q,
            stride_start(strides, s),
            seen_end(strides, q, s),
        ).is_some(),
        MatchType::EmptyMatch => true,
    }
}

/// What the ancestors found in a set are: a description that does not go
/// by the way they are searched for.
pub proof fn lemma_longest_in(s: Set<Path>, q: Path, lo: nat, hi: nat)
    ensures
        match longest_in(s, q, lo, hi) {
            Some(p) => {
                &&& lo < p.len <= hi
                &&& p == q.ancestor(p.len)
                &&& s.contains(p)
                &&& forall|l: nat| p.len < l <= hi ==> !s.contains(#[trigger] q.ancestor(l))
            },
            None => forall|l: nat| lo < l <= hi ==> !s.contains(#[trigger] q.ancestor(l)),
        },
    decreases hi,
{
    if hi > lo && !s.contains(q.ancestor(hi)) {
        lemma_longest_in(s, q, lo, (hi - 1) as nat);
    }
}

/// Sets that hold the same ancestors of `q` give the same answers.
pub proof fn lemma_agree(s1: Set<Path>, s2: Set<Path>, q: Path, lo: nat, hi: nat)
    requires
        forall|l: nat|
            lo < l <= hi ==> s1.contains(#[trigger] q.ancestor(l)) == s2.contains(q.ancestor(l)),
    ensures
        longest_in(s1, q, lo, hi) == longest_in(s2, q, lo, hi),
        ancestors_in(s1, q, lo, hi) == ancestors_in(s2, q, lo, hi),
    decreases hi,
{
    if hi > lo {
        lemma_agree(s1, s2, q, lo, (hi - 1) as nat);
    }
}

/// A search of a range is a search of its upper part, and of its lower part
/// if the upper part holds nothing.
pub proof fn lemma_longest_in_split(s: Set<Path>, q: Path, lo: nat, mid: nat, hi: nat)
    requires
        lo <= mid <= hi,
    ensures
        longest_in(s, q, lo, hi) == match longest_in(s, q, mid, hi) {
            Some(p) => Some(p),
            None => longest_in(s, q, lo, mid),
        },
    decreases hi,
{
    if hi > mid && !s.contains(q.ancestor(hi)) {
        lemma_longest_in_split(s, q, lo, mid, (hi - 1) as nat);
    }
}

/// The ancestors found in a range are those of its lower part followed by
/// those of its upper part.
pub proof fn lemma_ancestors_in_split(s: Set<Path>, q: Path, lo: nat, mid: nat, hi: nat)
    requires
        lo <= mid <= hi,
    ensures
        ancestors_in(s, q, lo, hi) == ancestors_in(s, q, lo, mid) + ancestors_in(s, q, mid, hi),
    decreases hi,
{
    if hi > mid {
        lemma_ancestors_in_split(s, q, lo, mid, (hi - 1) as nat);
        let low = ancestors_in(s, q, lo, mid);
        let up = ancestors_in(s, q, mid, (hi - 1) as nat);
        if s.contains(q.ancestor(hi)) {
            assert((low + up).push(q.ancestor(hi)) =~= low + up.push(q.ancestor(hi)));
        }
    } else {
        assert(ancestors_in(s, q, lo, mid) + Seq::<Path>::empty() =~= ancestors_in(s, q, lo, mid));
    }
}

/// The ancestors found in a set are in ascending order of length, and they
/// are all the ancestors in the range that the set holds.
pub proof fn lemma_ancestors_in(s: Set<Path>, q: Path, lo: nat, hi: nat)
    ensures
        ascending(ancestors_in(s, q, lo, hi)),
        forall|i: int|
            0 <= i < ancestors_in(s, q, lo, hi).len() ==> {
                let p = #[trigger] ancestors_in(s, q, lo, hi)[i];
                lo < p.len <= hi && p == q.ancestor(p.len) && s.contains(p)
            },
        forall|l: nat|
            lo < l <= hi && s.contains(#[trigger] q.ancestor(l)) ==> ancestors_in(
                s,
                q,
                lo,
                hi,
            ).contains(q.ancestor(l)),
    decreases hi,
{
    if hi > lo {
        let rest = ancestors_in(s, q, lo, (hi - 1) as nat);
        lemma_ancestors_in(s, q, lo, (hi - 1) as nat);
        let all = ancestors_in(s, q, lo, hi);
        if s.contains(q.ancestor(hi)) {
            assert(all == rest.push(q.ancestor(hi)));
            assert(all[rest.len() as int] == q.ancestor(hi));
            assert forall|l: nat| lo < l <= hi && s.contains(#[trigger] q.ancestor(l)) implies all.contains(
                q.ancestor(l),
            ) by {
                if l < hi {
                    let i = choose|i: int| 0 <= i < rest.len() && rest[i] == q.ancestor(l);
                    assert(all[i] == q.ancestor(l));
                }
            }
        }
    }
}

/// The ancestors of `q` in a set that are shorter than `q`: they are in
/// ascending order, each is in the set and covers `q`, and every path of
/// the set that covers `q` and is shorter is among them. The last of them
/// is the longest.
pub proof fn lemma_strict_ancestors_in(s: Set<Path>, q: Path, hi: nat)
    requires
        hi <= q.len,
    ensures
        ascending(strict_ancestors_in(s, q, hi)),
        forall|p: Path| #[trigger]
            strict_ancestors_in(s, q, hi).contains(p) <==> s.contains(p) && p.covers(q) && p.len
                < hi,
        longest_strict_ancestor(s, q, hi) == if strict_ancestors_in(s, q, hi).len() == 0 {
            None
        } else {
            Some(strict_ancestors_in(s, q, hi).last())
        },
        match longest_strict_ancestor(s, q, hi) {
            Some(p) => s.contains(p) && p.covers(q) && p.len < hi && forall|p2: Path|
                s.contains(p2) && #[trigger] p2.covers(q) && p2.len < hi ==> p2.len <= p.len,
            None => forall|p2: Path| s.contains(p2) && p2.len < hi ==> !#[trigger] p2.covers(q),
        },
    decreases hi,
{
    let all = strict_ancestors_in(s, q, hi);
    if hi > 0 {
        let l = (hi - 1) as nat;
        let rest = strict_ancestors_in(s, q, l);
        lemma_strict_ancestors_in(s, q, l);
        let a = q.ancestor(l);
        if s.contains(a) {
            assert forall|i: int| 0 <= i < rest.len() implies (#[trigger] rest[i]).precedes(a) by {
                assert(rest.contains(rest[i]));
            }
            crate::path::lemma_push_ascending(rest, a);
            assert(all.last() == a);
        }
        assert forall|p: Path| #[trigger]
            all.contains(p) <==> s.contains(p) && p.covers(q) && p.len < hi by {
            if rest.contains(p) {
            }
            if s.contains(p) && p.covers(q) && p.len == l {
                assert(p == a);
                if !s.contains(a) {
                }
            }
        }
    }
}

} // verus!
