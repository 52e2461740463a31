//! What holds of the store, whatever is in it.
//!
//! Each law is stated over the functions that the contracts of the store
//! are stated over: the view of a store, which is the map from the paths of
//! its prefixes to their metadata, and the functions of the model that say
//! what a query returns.

use vstd::prelude::*;
use crate::af::AddressFamily;
use crate::levels::{stride_start, valid_strides, lemma_stride_start_grows};
use crate::model::{walk_prefix, walk_less_specifics, direct_match, longest_in, boundary_ancestors,
    stop_level, strict_ancestors_in, longest_strict_ancestor, has_descendant,
    lists_more_specifics, lemma_longest_in, lemma_ancestors_in, lemma_strict_ancestors_in};
use crate::node_id::PrefixId;
use crate::options::{MatchOptions, MatchType};
use crate::path::{Path, ascending};
use crate::prefix_record::{MergeUpdate, record_paths};
use crate::store::QueryResult;
use crate::tree::TreeBitMap;

verus! {

/// A prefix that was inserted is found by an exact match, with the
/// metadata that the insertion left: if the store `after` is what an
/// insertion of `p` made of a store with the view `before`, where `meta` is
/// the metadata that the insertion left for `p`, then an exact match for
/// `p` in `after` answers with `p` and `meta`, whether it walks down the
/// trie or looks in the maps.
pub proof fn law_inserted_is_matched<'a, AF: AddressFamily, M: MergeUpdate>(
    before: Map<Path, M>,
    after: TreeBitMap<AF, M>,
    p: PrefixId<AF>,
    meta: M,
    options: MatchOptions,
    r: QueryResult<'a, AF, M>,
)
    requires
        after.wf(),
        p.wf(),
        after@ == before.insert(p@, meta),
        options.match_type == MatchType::ExactMatch,
        after.walk_answer(p, options, r) || after.direct_answer(p, options, r),
    ensures
        r.prefix == Some(p),
        r.match_type == MatchType::ExactMatch,
        r.prefix_meta matches Some(found) && *found == meta,
{
    r.prefix.unwrap().lemma_view_injective(p);
}

/// The prefix that a longest match returns is in the store and covers the
/// search prefix, and no longer prefix in the store covers the search
/// prefix.
pub proof fn law_longest_match<'a, AF: AddressFamily, M: MergeUpdate>(
    tree: TreeBitMap<AF, M>,
    q: PrefixId<AF>,
    options: MatchOptions,
    r: QueryResult<'a, AF, M>,
    p: PrefixId<AF>,
)
    requires
        tree.wf(),
        q.wf(),
        options.match_type == MatchType::LongestMatch,
        tree.walk_answer(q, options, r) || tree.direct_answer(q, options, r),
        r.prefix == Some(p),
    ensures
        tree@.contains_key(p@),
        p@.covers(q@),
        forall|o: Path| tree@.contains_key(o) && o.len > p@.len ==> !#[trigger] o.covers(q@),
{
    let dom = tree@.dom();
    q.lemma_view_wf();
    q@.lemma_ancestor_self();
    q@.lemma_covers_self();
    if tree.walk_answer(q, options, r) && q.len > 0 {
        lemma_longest_in(dom, q@, 0, q@.len);
        assert forall|o: Path| dom.contains(o) && o.len > p@.len implies !#[trigger] o.covers(
            q@,
        ) by {
            if o.covers(q@) {
                assert(o == q@.ancestor(o.len));
            }
        }
    } else if tree.walk_answer(q, options, r) {
    } else {
        lemma_strict_ancestors_in(dom, q@, q@.len);
    }
}

/// Every prefix of the store comes back from an exact match with the
/// metadata that the store has for it.
pub proof fn law_round_trip<'a, AF: AddressFamily, M: MergeUpdate>(
    tree: TreeBitMap<AF, M>,
    q: PrefixId<AF>,
    options: MatchOptions,
    r: QueryResult<'a, AF, M>,
)
    requires
        tree.wf(),
        q.wf(),
        tree@.contains_key(q@),
        options.match_type == MatchType::ExactMatch,
        tree.walk_answer(q, options, r) || tree.direct_answer(q, options, r),
    ensures
        r.prefix == Some(q),
        r.match_type == MatchType::ExactMatch,
        r.prefix_meta matches Some(meta) && *meta == tree@[q@],
{
    r.prefix.unwrap().lemma_view_injective(q);
}

/// The more-specifics of a prefix are the prefixes of the store that it
/// covers and is not, each once, by ascending length and among those of one
/// length by ascending number.
pub proof fn law_more_specifics(list: Seq<Path>, dom: Set<Path>, q: Path)
    requires
        lists_more_specifics(list, dom, q),
    ensures
        list.to_set() == Set::new(|p: Path| dom.contains(p) && q.covers(p) && p != q),
        list.no_duplicates(),
        forall|i: int, j: int|
            0 <= i < j < list.len() ==> (#[trigger] list[i]).len < (#[trigger] list[j]).len || (
            list[i].len == list[j].len && list[i].value < list[j].value),
{
    assert(list.to_set() =~= Set::new(|p: Path| dom.contains(p) && q.covers(p) && p != q));
    assert forall|i: int, j: int| 0 <= i < list.len() && 0 <= j < list.len() && i != j implies list[i]
        != list[j] by {
        if i < j {
            assert(list[i].precedes(list[j]));
        } else {
            assert(list[j].precedes(list[i]));
        }
    }
}

/// The less-specifics of a prefix are the prefixes of the store that cover
/// it and are not it, the default route among them, each once and by
/// ascending length.
pub proof fn law_less_specifics(dom: Set<Path>, q: Path)
    ensures
        strict_ancestors_in(dom, q, q.len).to_set() == Set::new(
            |p: Path| dom.contains(p) && p.covers(q) && p != q,
        ),
        forall|i: int, j: int|
            0 <= i < j < strict_ancestors_in(dom, q, q.len).len() ==> (
            #[trigger] strict_ancestors_in(dom, q, q.len)[i]).len < (#[trigger] strict_ancestors_in(
                dom,
                q,
                q.len,
            )[j]).len,
{
    let list = strict_ancestors_in(dom, q, q.len);
    lemma_strict_ancestors_in(dom, q, q.len);
    q.lemma_ancestor_self();
    assert(list.to_set() =~= Set::new(|p: Path| dom.contains(p) && p.covers(q) && p != q));
    assert forall|i: int, j: int| 0 <= i < j < list.len() implies (#[trigger] list[i]).len < (
    #[trigger] list[j]).len by {
        assert(list[i].precedes(list[j]));
        assert(list.contains(list[i]));
        assert(list.contains(list[j]));
        if list[i].len == list[j].len {
            assert(list[i] == q.ancestor(list[i].len));
        }
    }
}

/// What a query for the prefixes below a prefix returns: all the prefixes
/// of the store that the prefix covers and is not, each once and with the
/// metadata that the store has for it, by ascending length and among those
/// of one length by ascending number.
pub proof fn law_more_specifics_from<'a, AF: AddressFamily, M: MergeUpdate>(
    tree: TreeBitMap<AF, M>,
    q: PrefixId<AF>,
    r: QueryResult<'a, AF, M>,
)
    requires
        tree.wf(),
        q.wf(),
        tree.more_specifics_answer(q, r),
    ensures
        r.more_specifics.is_some(),
        record_paths(r.more_specifics.unwrap()@).to_set() == Set::new(
            |p: Path| tree@.contains_key(p) && q@.covers(p) && p != q@,
        ),
        record_paths(r.more_specifics.unwrap()@).no_duplicates(),
        ascending(record_paths(r.more_specifics.unwrap()@)),
        forall|i: int|
            0 <= i < r.more_specifics.unwrap()@.len() ==> *(
            #[trigger] r.more_specifics.unwrap()@[i]).meta
                == tree@[r.more_specifics.unwrap()@[i].prefix@],
{
    let list = record_paths(r.more_specifics.unwrap()@);
    law_more_specifics(list, tree@.dom(), q@);
    assert(list.to_set() =~= Set::new(
        |p: Path| tree@.contains_key(p) && q@.covers(p) && p != q@,
    ));
}

/// What a query for the prefixes that cover a prefix returns: all the
/// prefixes of the store that cover the prefix and are not it, the default
/// route among them, each once and with the metadata that the store has for
/// it, by ascending length.
pub proof fn law_less_specifics_from<'a, AF: AddressFamily, M: MergeUpdate>(
    tree: TreeBitMap<AF, M>,
    q: PrefixId<AF>,
    r: QueryResult<'a, AF, M>,
)
    requires
        tree.wf(),
        q.wf(),
        tree.less_specifics_answer(q, r),
    ensures
        r.less_specifics.is_some(),
        record_paths(r.less_specifics.unwrap()@).to_set() == Set::new(
            |p: Path| tree@.contains_key(p) && p.covers(q@) && p != q@,
        ),
        forall|i: int, j: int|
            0 <= i < j < r.less_specifics.unwrap()@.len() ==> (
            #[trigger] r.less_specifics.unwrap()@[i]).prefix.len < (
            #[trigger] r.less_specifics.unwrap()@[j]).prefix.len,
        forall|i: int|
            0 <= i < r.less_specifics.unwrap()@.len() ==> *(
            #[trigger] r.less_specifics.unwrap()@[i]).meta
                == tree@[r.less_specifics.unwrap()@[i].prefix@],
{
    let records = r.less_specifics.unwrap()@;
    let list = record_paths(records);
    law_less_specifics(tree@.dom(), q@);
    assert(list.to_set() =~= Set::new(
        |p: Path| tree@.contains_key(p) && p.covers(q@) && p != q@,
    ));
    assert forall|i: int, j: int| 0 <= i < j < records.len() implies (#[trigger] records[i]).prefix.len
        < (#[trigger] records[j]).prefix.len by {
        assert(list[i] == records[i].prefix@);
        assert(list[j] == records[j].prefix@);
        assert(list[i].len < list[j].len);
    }
}

/// The less-specifics that a walk down the trie gives cover the search
/// prefix, are in the store, and come by ascending length.
pub proof fn law_walk_less_specifics(
    dom: Set<Path>,
    strides: Seq<u8>,
    w: nat,
    q: Path,
    match_type: MatchType,
)
    requires
        valid_strides(strides, w),
        strides.len() > 0,
    ensures
        forall|i: int|
            0 <= i < walk_less_specifics(dom, strides, q, match_type).len() ==> {
                let p = #[trigger] walk_less_specifics(dom, strides, q, match_type)[i];
                dom.contains(p) && p == q.ancestor(p.len)
            },
        forall|i: int, j: int|
            0 <= i < j < walk_less_specifics(dom, strides, q, match_type).len() ==> (
            #[trigger] walk_less_specifics(dom, strides, q, match_type)[i]).len < (
            #[trigger] walk_less_specifics(dom, strides, q, match_type)[j]).len,
{
    let list = walk_less_specifics(dom, strides, q, match_type);
    if match_type == MatchType::ExactMatch {
        lemma_ancestors_in(dom, q, 0, q.len);
        assert forall|i: int, j: int| 0 <= i < j < list.len() implies (#[trigger] list[i]).len < (
        #[trigger] list[j]).len by {
            assert(list[i].precedes(list[j]));
            if list[i].len == list[j].len {
                assert(list[i] == q.ancestor(list[i].len));
            }
        }
    } else {
        lemma_stop_level(dom, strides, q, 0);
        lemma_boundary(dom, strides, w, q, stop_level(dom, strides, q, 0));
    }
}

proof fn lemma_stop_level(dom: Set<Path>, strides: Seq<u8>, q: Path, i: nat)
    requires
        i < strides.len(),
    ensures
        i <= stop_level(dom, strides, q, i) < strides.len(),
    decreases strides.len() - i,
{
    if !(i + 1 >= strides.len() || q.len <= stride_start(strides, i + 1) || !has_descendant(
        dom,
        q.ancestor(stride_start(strides, i + 1)),
    )) {
        lemma_stop_level(dom, strides, q, i + 1);
    }
}

proof fn lemma_boundary(dom: Set<Path>, strides: Seq<u8>, w: nat, q: Path, i: nat)
    requires
        valid_strides(strides, w),
        i <= strides.len(),
    ensures
        forall|k: int|
            0 <= k < boundary_ancestors(dom, strides, q, i).len() ==> {
                let p = #[trigger] boundary_ancestors(dom, strides, q, i)[k];
                &&& dom.contains(p)
                &&& p == q.ancestor(p.len)
                &&& p.len <= stride_start(strides, i)
            },
        forall|a: int, b: int|
            0 <= a < b < boundary_ancestors(dom, strides, q, i).len() ==> (
            #[trigger] boundary_ancestors(dom, strides, q, i)[a]).len < (
            #[trigger] boundary_ancestors(dom, strides, q, i)[b]).len,
    decreases i,
{
    let all = boundary_ancestors(dom, strides, q, i);
    if i > 0 {
        let rest = boundary_ancestors(dom, strides, q, (i - 1) as nat);
        lemma_boundary(dom, strides, w, q, (i - 1) as nat);
        lemma_stride_start_grows(strides, (i - 1) as nat, i);
        assert forall|k: int| 0 <= k < all.len() implies {
            let p = #[trigger] all[k];
            &&& dom.contains(p)
            &&& p == q.ancestor(p.len)
            &&& p.len <= stride_start(strides, i)
        } by {
            if k < rest.len() {
                assert(all[k] == rest[k]);
            }
        }
        assert forall|a: int, b: int| 0 <= a < b < all.len() implies (#[trigger] all[a]).len < (
        #[trigger] all[b]).len by {
            if b < rest.len() {
                assert(all[a] == rest[a] && all[b] == rest[b]);
            } else {
                assert(all[a] == rest[a]);
            }
        }
    }
}

/// Two lists in ascending order that hold the same paths are the same
/// list: what is said of the members and the order of a list of
/// more-specifics leaves one list.
pub proof fn law_ascending_list_is_unique(s1: Seq<Path>, s2: Seq<Path>)
    requires
        ascending(s1),
        ascending(s2),
        forall|p: Path| s1.contains(p) <==> s2.contains(p),
    ensures
        s1 == s2,
    decreases s1.len(),
{
    if s1.len() == 0 {
        if s2.len() > 0 {
            assert(s2.contains(s2[0]));
        }
        assert(s1 =~= s2);
    } else {
        if s2.len() == 0 {
            assert(s1.contains(s1[0]));
        }
        // The last of each list is the greatest of the paths.
        let a = s1.last();
        let b = s2.last();
        assert(s1.contains(a));
        assert(s2.contains(b));
        let ia = choose|i: int| 0 <= i < s2.len() && s2[i] == a;
        let ib = choose|i: int| 0 <= i < s1.len() && s1[i] == b;
        if ia < s2.len() - 1 {
            assert(s2[ia].precedes(s2[s2.len() - 1]));
        }
        if ib < s1.len() - 1 {
            assert(s1[ib].precedes(s1[s1.len() - 1]));
        }
        assert(a == b);
        let t1 = s1.drop_last();
        let t2 = s2.drop_last();
        assert forall|p: Path| t1.contains(p) <==> t2.contains(p) by {
            if t1.contains(p) {
                let i = choose|i: int| 0 <= i < t1.len() && t1[i] == p;
                assert(s1[i] == p);
                assert(s1[i].precedes(a));
                assert(s1.contains(p));
                let j = choose|j: int| 0 <= j < s2.len() && s2[j] == p;
                assert(t2[j] == p);
            }
            if t2.contains(p) {
                let i = choose|i: int| 0 <= i < t2.len() && t2[i] == p;
                assert(s2[i] == p);
                assert(s2[i].precedes(b));
                assert(s2.contains(p));
                let j = choose|j: int| 0 <= j < s1.len() && s1[j] == p;
                assert(t1[j] == p);
            }
        }
        law_ascending_list_is_unique(t1, t2);
        assert(s1 =~= t1.push(a));
        assert(s2 =~= t2.push(b));
    }
}

/// The default route matches what nothing else matches: if the default
/// route is in the store and no other prefix of the store covers `q`, a
/// look-up of `q` in the maps finds the default route with its metadata, as
/// a longest match.
pub proof fn law_default_route<'a, AF: AddressFamily, M: MergeUpdate>(
    tree: TreeBitMap<AF, M>,
    q: PrefixId<AF>,
    options: MatchOptions,
    r: QueryResult<'a, AF, M>,
)
    requires
        tree.wf(),
        q.wf(),
        q.len > 0,
        tree@.contains_key(Path::root()),
        forall|p: Path| tree@.contains_key(p) && p.len > 0 ==> !#[trigger] p.covers(q@),
        tree.direct_answer(q, options, r),
    ensures
        r.prefix_path() == Some(Path::root()),
        r.match_type == MatchType::LongestMatch,
        r.prefix_meta matches Some(meta) && *meta == tree@[Path::root()],
{
    let dom = tree@.dom();
    q.lemma_view_wf();
    q@.lemma_covers_self();
    q@.lemma_root_covers();
    lemma_strict_ancestors_in(dom, q@, q@.len);
    assert(!dom.contains(q@));
    let found = longest_strict_ancestor(dom, q@, q@.len);
    assert(found.is_some()) by {
        if found.is_none() {
            assert(Path::root().covers(q@));
        }
    }
}

/// A walk down the trie and a look in the maps find the same longest
/// match, the default route apart: what the walk finds, the look finds, and
/// where the walk finds nothing, the look finds the default route if it is
/// in the store and nothing if it is not.
pub proof fn law_walk_and_look_agree(dom: Set<Path>, strides: Seq<u8>, q: Path)
    requires
        q.wf(),
        q.len > 0,
    ensures
        direct_match(dom, q) == match walk_prefix(dom, strides, q, MatchType::LongestMatch) {
            Some(p) => Some(p),
            None => if dom.contains(Path::root()) {
                Some(Path::root())
            } else {
                None
            },
        },
{
    lemma_longest_in(dom, q, 0, q.len);
    lemma_strict_ancestors_in(dom, q, q.len);
    q.lemma_ancestor_self();
    q.lemma_covers_self();
    q.lemma_root_covers();
    let walked = longest_in(dom, q, 0, q.len);
    let looked = direct_match(dom, q);
    match walked {
        Some(p) => {
            assert(p.covers(q));
            if !dom.contains(q) {
                let found = longest_strict_ancestor(dom, q, q.len).unwrap();
                assert(found.covers(q));
                assert(found == q.ancestor(found.len));
                assert(p == q.ancestor(p.len));
                if found.len > 0 {
                    assert(dom.contains(q.ancestor(found.len)));
                }
            }
        },
        None => {
            assert(!dom.contains(q.ancestor(q.len)));
            match longest_strict_ancestor(dom, q, q.len) {
                Some(found) => {
                    assert(found == q.ancestor(found.len));
                    if found.len > 0 {
                        assert(dom.contains(q.ancestor(found.len)));
                    }
                    assert(vstd::arithmetic::power2::pow2(0) == 1) by {
                        vstd::arithmetic::power2::lemma2_to64();
                    }
                    q.lemma_ancestor_wf(0);
                },
                None => {},
            }
        },
    }
}

/// An update that is merged a second time changes nothing: if a prefix of
/// the store has had `update` merged into its metadata, leaving `once`, a
/// second insertion of the prefix with `update` leaves `once` again.
pub proof fn law_replay_changes_nothing<M: MergeUpdate>(
    before: M,
    update: M,
    user_data: M::UserDataIn,
)
    ensures
        before.merged(update, user_data).merged(update, user_data) == before.merged(
            update,
            user_data,
        ),
{
    before.lemma_merge_idempotent(update, user_data);
}

/// The default route is an exact match for itself: a walk down the trie
/// for the default route answers with it and its metadata if it is in the
/// store, and with nothing if it is not.
pub proof fn law_default_route_exact<'a, AF: AddressFamily, M: MergeUpdate>(
    tree: TreeBitMap<AF, M>,
    q: PrefixId<AF>,
    options: MatchOptions,
    r: QueryResult<'a, AF, M>,
)
    requires
        tree.wf(),
        q.wf(),
        q.len == 0,
        tree.walk_answer(q, options, r),
    ensures
        q@ == Path::root(),
        tree@.contains_key(Path::root()) ==> r.prefix == Some(q) && r.match_type
            == MatchType::ExactMatch && r.prefix_meta.is_some() && *r.prefix_meta.unwrap()
            == tree@[Path::root()],
        !tree@.contains_key(Path::root()) ==> r.prefix.is_none() && r.match_type
            == MatchType::EmptyMatch,
{
    q.lemma_view_wf();
    assert(vstd::arithmetic::power2::pow2(0) == 1) by {
        vstd::arithmetic::power2::lemma2_to64();
    }
    if tree@.contains_key(Path::root()) {
        r.prefix.unwrap().lemma_view_injective(q);
    }
}

} // verus!
