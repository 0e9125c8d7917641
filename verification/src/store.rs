//! The hierarchy store: the single source of truth for the entity forest,
//! its sibling ordering and its cached filter view.

use vstd::prelude::*;
use std::collections::BTreeMap;
use std::collections::BTreeSet;
use crate::entity::Part;
use crate::entity::RawPart;
use crate::entity::parse_part;
use crate::entity::spec_parse_part;
use crate::filter::FilterMethod;
use crate::order::SortMethod;
use crate::order::sorted_by;
use crate::order::lemma_same_multiset_same_elements;
use crate::order::lemma_sorted_same_parts;

verus! {

broadcast use
    vstd::laws_cmp::group_laws_cmp,
    vstd::seq_lib::group_seq_properties,
    crate::filter::lemma_allows_all_passes_everything;

/// Appending a fresh element keeps a list duplicate-free.
proof fn lemma_push_no_duplicates(s: Seq<i64>, x: i64)
    requires
        s.no_duplicates(),
        !s.contains(x),
    ensures
        s.push(x).no_duplicates(),
{
    let t = s.push(x);
    assert forall|i: int, j: int| 0 <= i < t.len() && 0 <= j < t.len() && i != j implies t[i]
        != t[j] by {
        if i < s.len() && j < s.len() {
            assert(s[i] == t[i] && s[j] == t[j]);
        } else if i < s.len() {
            assert(s.contains(s[i]));
        } else if j < s.len() {
            assert(s.contains(s[j]));
        }
    }
}

/// Appending an element grows the element set by exactly that element.
proof fn lemma_push_to_set(s: Seq<i64>, x: i64)
    ensures
        s.push(x).to_set() == s.to_set().insert(x),
{
    let t = s.push(x);
    assert forall|y: i64| #[trigger] t.to_set().contains(y) <==> s.to_set().contains(y) || y
        == x by {
        if t.contains(y) {
            let w = choose|w: int| 0 <= w < t.len() && #[trigger] t[w] == y;
            if w < s.len() {
                assert(s[w] == y);
            }
        }
        if s.contains(y) {
            let w = choose|w: int| 0 <= w < s.len() && #[trigger] s[w] == y;
            assert(t[w] == y);
        }
        if y == x {
            assert(t[s.len() as int] == y);
        }
    }
    assert(t.to_set() =~= s.to_set().insert(x));
}

/// A parent-pointer path: every entry is a known id, and each one after
/// the first names the entry before it as its parent.
pub open spec fn parent_path(m: Map<i64, Part>, q: Seq<i64>) -> bool {
    &&& q.len() >= 1
    &&& forall|k: int| 0 <= k < q.len() ==> m.contains_key(#[trigger] q[k])
    &&& forall|k: int| 1 <= k < q.len() ==> m[#[trigger] q[k]].parent_id == Some(q[k - 1])
}

/// Whether `y` is `x` itself or has `x` somewhere in its ancestor chain.
pub open spec fn in_subtree(m: Map<i64, Part>, x: i64, y: i64) -> bool {
    exists|q: Seq<i64>| #[trigger] parent_path(m, q) && q[0] == x && q.last() == y
}

/// All ids whose ancestor chain passes through `x`, with `x` itself.
pub open spec fn subtree_ids(m: Map<i64, Part>, x: i64) -> Set<i64> {
    Set::new(|y: i64| in_subtree(m, x, y))
}

/// A known id is in its own subtree.
pub proof fn lemma_subtree_self(m: Map<i64, Part>, x: i64)
    requires
        m.contains_key(x),
    ensures
        in_subtree(m, x, x),
{
    let q: Seq<i64> = seq![x];
    assert(parent_path(m, q) && q[0] == x && q.last() == x);
}

/// Everything in a subtree is a known id.
pub proof fn lemma_subtree_in_dom(m: Map<i64, Part>, x: i64, y: i64)
    requires
        in_subtree(m, x, y),
    ensures
        m.contains_key(y),
        m.contains_key(x),
{
    let q = choose|q: Seq<i64>| #[trigger] parent_path(m, q) && q[0] == x && q.last() == y;
    assert(m.contains_key(q[0]));
    assert(m.contains_key(q[q.len() - 1]));
}

/// A child of a subtree member joins the subtree.
pub proof fn lemma_subtree_step(m: Map<i64, Part>, x: i64, y: i64, c: i64)
    requires
        in_subtree(m, x, y),
        m.contains_key(c),
        m[c].parent_id == Some(y),
    ensures
        in_subtree(m, x, c),
{
    let q = choose|q: Seq<i64>| #[trigger] parent_path(m, q) && q[0] == x && q.last() == y;
    let q2 = q.push(c);
    assert(q2.last() == c);
    assert(q2[0] == x);
    assert forall|k: int| 1 <= k < q2.len() implies m[#[trigger] q2[k]].parent_id == Some(
        q2[k - 1],
    ) by {
        if k < q.len() {
            assert(q2[k] == q[k] && q2[k - 1] == q[k - 1]);
        } else {
            assert(q2[k] == c && q2[k - 1] == q.last());
        }
    }
    assert(parent_path(m, q2));
}

/// The parent of a subtree member other than the root is in the subtree.
pub proof fn lemma_subtree_parent(m: Map<i64, Part>, x: i64, c: i64)
    requires
        in_subtree(m, x, c),
        c != x,
    ensures
        m[c].parent_id is Some,
        in_subtree(m, x, m[c].parent_id.unwrap()),
{
    let q = choose|q: Seq<i64>| #[trigger] parent_path(m, q) && q[0] == x && q.last() == c;
    assert(q.len() >= 2);
    assert(m[q[q.len() - 1]].parent_id == Some(q[q.len() - 2]));
    let q2 = q.take(q.len() - 1);
    assert(parent_path(m, q2) && q2[0] == x && q2.last() == q[q.len() - 2]);
}

/// Splits a parent-pointer path at its last visit to `s`: what follows
/// starts at a child of `s`, ends where the path ended, and avoids `s` on
/// top of everything the path already avoided.
proof fn lemma_path_past_node(m: Map<i64, Part>, q: Seq<i64>, avoid: Set<i64>, s: i64)
    requires
        parent_path(m, q),
        forall|k: int| 0 <= k < q.len() ==> !avoid.contains(#[trigger] q[k]),
        q.contains(s),
        q.last() != s,
    ensures
        exists|r: Seq<i64>|
            {
                &&& #[trigger] parent_path(m, r)
                &&& m[r[0]].parent_id == Some(s)
                &&& r.last() == q.last()
                &&& forall|k: int| 0 <= k < r.len() ==> !avoid.insert(s).contains(#[trigger] r[k])
            },
    decreases q.len(),
{
    let w = choose|w: int| 0 <= w < q.len() && #[trigger] q[w] == s;
    assert(q.len() >= 2);
    let tail = q.drop_first();
    assert(parent_path(m, tail)) by {
        assert forall|k: int| 1 <= k < tail.len() implies m[#[trigger] tail[k]].parent_id == Some(
            tail[k - 1],
        ) by {
            assert(tail[k] == q[k + 1] && tail[k - 1] == q[k]);
        }
    }
    assert(tail.last() == q.last());
    if tail.contains(s) {
        lemma_path_past_node(m, tail, avoid, s);
    } else {
        assert(q[0] == s) by {
            if w >= 1 {
                assert(tail[w - 1] == s);
            }
        }
        let r = tail;
        assert(m[r[0]].parent_id == Some(s)) by {
            assert(m[q[1]].parent_id == Some(q[0]));
        }
        assert forall|k: int| 0 <= k < r.len() implies !avoid.insert(s).contains(
            #[trigger] r[k],
        ) by {
            assert(r[k] == q[k + 1]);
            assert(!avoid.contains(q[k + 1]));
            if r[k] == s {
                assert(r.contains(r[k]));
            }
        }
        assert(parent_path(m, r) && m[r[0]].parent_id == Some(s) && r.last() == q.last());
    }
}

/// Two duplicate-free lists with no common element concatenate to a
/// duplicate-free list.
proof fn lemma_concat_no_duplicates(a: Seq<i64>, b: Seq<i64>)
    requires
        a.no_duplicates(),
        b.no_duplicates(),
        forall|x: i64| #[trigger] a.contains(x) ==> !b.contains(x),
    ensures
        (a + b).no_duplicates(),
{
    let t = a + b;
    assert forall|i: int, j: int| 0 <= i < t.len() && 0 <= j < t.len() && i != j implies t[i]
        != t[j] by {
        if i < a.len() && j < a.len() {
        } else if i < a.len() {
            assert(a.contains(t[i]));
            assert(b.contains(t[j]) || t[i] != t[j]);
        } else if j < a.len() {
            assert(a.contains(t[j]));
            assert(b.contains(t[i]) || t[i] != t[j]);
        } else {
            assert(t[i] == b[i - a.len()] && t[j] == b[j - a.len()]);
        }
    }
}

/// What removing the first occurrence of a value leaves: on a
/// duplicate-free list the value is gone, everything else stays, order and
/// duplicate-freedom are kept, and an absent value changes nothing.
proof fn lemma_remove_value_props(s: Seq<i64>, x: i64)
    requires
        s.no_duplicates(),
    ensures
        !s.remove_value(x).contains(x),
        forall|y: i64| y != x ==> s.remove_value(x).contains(y) == #[trigger] s.contains(y),
        s.remove_value(x).no_duplicates(),
        !s.contains(x) ==> s.remove_value(x) == s,
        forall|k: int|
            0 <= k < s.remove_value(x).len() ==> s.contains(#[trigger] s.remove_value(x)[k]),
{
    s.index_of_first_ensures(x);
    match s.index_of_first(x) {
        None => {},
        Some(i) => {
            let r = s.remove(i);
            s.remove_ensures(i);
            assert forall|k: int| 0 <= k < r.len() implies s.contains(#[trigger] r[k]) by {
                if k < i {
                    assert(r[k] == s[k]);
                } else {
                    assert(r[k] == s[k + 1]);
                }
            }
            assert(!r.contains(x)) by {
                if r.contains(x) {
                    let w = choose|w: int| 0 <= w < r.len() && #[trigger] r[w] == x;
                    if w < i {
                        assert(s[w] == x);
                    } else {
                        assert(s[w + 1] == x);
                        assert(s[i] == x);
                    }
                }
            }
            assert forall|y: i64| y != x implies r.contains(y) == #[trigger] s.contains(y) by {
                if s.contains(y) {
                    let w = choose|w: int| 0 <= w < s.len() && #[trigger] s[w] == y;
                    if w < i {
                        assert(r[w] == y);
                    } else {
                        assert(w != i);
                        assert(r[w - 1] == y);
                    }
                }
                if r.contains(y) {
                    let w = choose|w: int| 0 <= w < r.len() && #[trigger] r[w] == y;
                }
            }
            assert(r.no_duplicates()) by {
                assert forall|p: int, q: int|
                    0 <= p < r.len() && 0 <= q < r.len() && p != q implies r[p] != r[q] by {
                    let p2: int = if p < i {
                        p
                    } else {
                        p + 1
                    };
                    let q2: int = if q < i {
                        q
                    } else {
                        q + 1
                    };
                    assert(r[p] == s[p2] && r[q] == s[q2]);
                }
            }
        },
    }
}

/// Removes the first occurrence of a value from a list, when there is one.
fn remove_value_exec(v: &mut Vec<i64>, x: i64)
    ensures
        final(v)@ == old(v)@.remove_value(x),
{
    proof {
        old(v)@.index_of_first_ensures(x);
    }
    let n = v.len();
    let mut k: usize = 0;
    while k < n
        invariant
            k <= n,
            n == v@.len(),
            v@ == old(v)@,
            forall|j: int| 0 <= j < k ==> v@[j] != x,
        decreases n - k,
    {
        if v[k] == x {
            proof {
                old(v)@.index_of_first_ensures(x);
                assert(old(v)@.index_of_first(x) matches Some(i) && i == k);
            }
            v.remove(k);
            return;
        }
        k = k + 1;
    }
    proof {
        assert(!old(v)@.contains(x));
        old(v)@.index_of_first_ensures(x);
        assert(old(v)@.index_of_first(x) is None);
    }
}

/// The entity map a snapshot denotes: later records sit beneath earlier
/// ones, so a repeated id would keep its first record.
pub open spec fn spec_load_map(raw: Seq<RawPart>) -> Map<i64, Part>
    decreases raw.len(),
{
    if raw.len() == 0 {
        Map::empty()
    } else {
        spec_load_map(raw.drop_first()).insert(
            spec_parse_part(raw.first()).unwrap().id,
            spec_parse_part(raw.first()).unwrap(),
        )
    }
}

/// Whether a snapshot is acceptable: every record parses, ids are pairwise
/// distinct, and every parent id names a record of the snapshot.
pub open spec fn spec_load_ok(raw: Seq<RawPart>) -> bool {
    &&& forall|i: int| 0 <= i < raw.len() ==> (#[trigger] spec_parse_part(raw[i])) is Some
    &&& forall|i: int, j: int|
        0 <= i < j < raw.len() ==> (#[trigger] spec_parse_part(raw[i])).unwrap().id != (
        #[trigger] spec_parse_part(raw[j])).unwrap().id
    &&& forall|i: int|
        0 <= i < raw.len() ==> ((#[trigger] spec_parse_part(raw[i])).unwrap().parent_id matches Some(
            p,
        ) ==> spec_load_map(raw).contains_key(p))
}

/// The snapshot map holds exactly the parsed ids.
proof fn lemma_load_map_contains(raw: Seq<RawPart>, y: i64)
    requires
        forall|i: int| 0 <= i < raw.len() ==> (#[trigger] spec_parse_part(raw[i])) is Some,
    ensures
        spec_load_map(raw).contains_key(y) <==> exists|j: int|
            0 <= j < raw.len() && (#[trigger] spec_parse_part(raw[j])).unwrap().id == y,
    decreases raw.len(),
{
    if raw.len() > 0 {
        let tail = raw.drop_first();
        assert forall|i: int| 0 <= i < tail.len() implies (#[trigger] spec_parse_part(
            tail[i],
        )) is Some by {
            assert(tail[i] == raw[i + 1]);
        }
        lemma_load_map_contains(tail, y);
        if spec_load_map(raw).contains_key(y) {
            if y != spec_parse_part(raw.first()).unwrap().id {
                let j = choose|j: int|
                    0 <= j < tail.len() && (#[trigger] spec_parse_part(tail[j])).unwrap().id == y;
                assert(tail[j] == raw[j + 1]);
                assert(spec_parse_part(raw[j + 1]).unwrap().id == y);
            } else {
                assert(spec_parse_part(raw[0]).unwrap().id == y);
            }
        }
        if exists|j: int| 0 <= j < raw.len() && (#[trigger] spec_parse_part(raw[j])).unwrap().id
            == y {
            let j = choose|j: int|
                0 <= j < raw.len() && (#[trigger] spec_parse_part(raw[j])).unwrap().id == y;
            if j == 0 {
                assert(spec_load_map(raw).contains_key(y));
            } else {
                assert(tail[j - 1] == raw[j]);
                assert(spec_parse_part(tail[j - 1]).unwrap().id == y);
                assert(spec_load_map(tail).contains_key(y));
            }
        }
    }
}

/// With pairwise distinct ids the snapshot map holds each record at its id.
proof fn lemma_load_map_at(raw: Seq<RawPart>, j: int)
    requires
        forall|i: int| 0 <= i < raw.len() ==> (#[trigger] spec_parse_part(raw[i])) is Some,
        forall|i1: int, i2: int|
            0 <= i1 < i2 < raw.len() ==> (#[trigger] spec_parse_part(raw[i1])).unwrap().id != (
            #[trigger] spec_parse_part(raw[i2])).unwrap().id,
        0 <= j < raw.len(),
    ensures
        spec_load_map(raw).contains_key(spec_parse_part(raw[j]).unwrap().id),
        spec_load_map(raw)[spec_parse_part(raw[j]).unwrap().id] == spec_parse_part(raw[j]).unwrap(),
    decreases raw.len(),
{
    let tail = raw.drop_first();
    assert forall|i: int| 0 <= i < tail.len() implies (#[trigger] spec_parse_part(
        tail[i],
    )) is Some by {
        assert(tail[i] == raw[i + 1]);
    }
    assert forall|i1: int, i2: int| 0 <= i1 < i2 < tail.len() implies (#[trigger] spec_parse_part(
        tail[i1],
    )).unwrap().id != (#[trigger] spec_parse_part(tail[i2])).unwrap().id by {
        assert(tail[i1] == raw[i1 + 1] && tail[i2] == raw[i2 + 1]);
    }
    if j == 0 {
    } else {
        lemma_load_map_at(tail, j - 1);
        assert(tail[j - 1] == raw[j]);
        assert(spec_parse_part(raw[0]).unwrap().id != spec_parse_part(raw[j]).unwrap().id);
    }
}

/// One worklist step keeps the pending subtree reachable: after a node is
/// processed and its children are pushed, every still-unremoved member of
/// the subtree is reached by a path from the new worklist that avoids every
/// removed id.
proof fn lemma_coverage_step(
    m0: Map<i64, Part>,
    id: i64,
    s: i64,
    stack_old: Seq<i64>,
    stack_new: Seq<i64>,
    cs_seq: Seq<i64>,
    processed_old: Set<i64>,
)
    requires
        stack_old.len() >= 1,
        stack_old.last() == s,
        stack_new == stack_old.drop_last() + cs_seq,
        forall|c: i64|
            m0.contains_key(c) && m0[c].parent_id == Some(s) && c != id ==> #[trigger] cs_seq.contains(c),
        processed_old.contains(id),
        forall|y: i64|
            m0.contains_key(y) && #[trigger] in_subtree(m0, id, y) && !processed_old.contains(y)
                ==> exists|r: Seq<i64>|
                {
                    &&& #[trigger] parent_path(m0, r)
                    &&& stack_old.contains(r[0])
                    &&& r.last() == y
                    &&& forall|k: int| 0 <= k < r.len() ==> !processed_old.contains(#[trigger] r[k])
                },
    ensures
        forall|y: i64|
            m0.contains_key(y) && #[trigger] in_subtree(m0, id, y) && !processed_old.insert(
                s,
            ).contains(y) ==> exists|r: Seq<i64>|
                {
                    &&& #[trigger] parent_path(m0, r)
                    &&& stack_new.contains(r[0])
                    &&& r.last() == y
                    &&& forall|k: int|
                        0 <= k < r.len() ==> !processed_old.insert(s).contains(#[trigger] r[k])
                },
{
    let processed = processed_old.insert(s);
    let dropped = stack_old.drop_last();
    assert forall|y: i64|
        m0.contains_key(y) && #[trigger] in_subtree(m0, id, y) && !processed.contains(y)
            implies exists|r: Seq<i64>|
            {
                &&& #[trigger] parent_path(m0, r)
                &&& stack_new.contains(r[0])
                &&& r.last() == y
                &&& forall|k: int| 0 <= k < r.len() ==> !processed.contains(#[trigger] r[k])
            } by {
        let q = choose|q: Seq<i64>|
            {
                &&& #[trigger] parent_path(m0, q)
                &&& stack_old.contains(q[0])
                &&& q.last() == y
                &&& forall|k: int| 0 <= k < q.len() ==> !processed_old.contains(#[trigger] q[k])
            };
        if q.contains(s) {
            assert(q.last() != s);
            lemma_path_past_node(m0, q, processed_old, s);
            let r = choose|r: Seq<i64>|
                {
                    &&& #[trigger] parent_path(m0, r)
                    &&& m0[r[0]].parent_id == Some(s)
                    &&& r.last() == q.last()
                    &&& forall|k: int|
                        0 <= k < r.len() ==> !processed_old.insert(s).contains(#[trigger] r[k])
                };
            assert(r[0] != id) by {
                assert(!processed_old.insert(s).contains(r[0]));
            }
            assert(m0.contains_key(r[0]));
            assert(cs_seq.contains(r[0]));
            let w = choose|w: int| 0 <= w < cs_seq.len() && #[trigger] cs_seq[w] == r[0];
            assert(stack_new[dropped.len() + w] == r[0]);
            assert(stack_new.contains(r[0]));
            assert(parent_path(m0, r) && stack_new.contains(r[0]) && r.last() == y);
        } else {
            assert(q[0] != s) by {
                assert(q.contains(q[0]));
            }
            let w = choose|w: int| 0 <= w < stack_old.len() && #[trigger] stack_old[w] == q[0];
            assert(w < dropped.len()) by {
                if w == stack_old.len() - 1 {
                    assert(stack_old[w] == s);
                }
            }
            assert(stack_new[w] == q[0]);
            assert(stack_new.contains(q[0]));
            assert forall|k: int| 0 <= k < q.len() implies !processed.contains(
                #[trigger] q[k],
            ) by {
                if q[k] == s {
                    assert(q.contains(q[k]));
                }
            }
            assert(parent_path(m0, q) && stack_new.contains(q[0]) && q.last() == y);
        }
    }
}

/// The store: the entity map, the parent-to-children index, the root list,
/// the active policies and the cached exclusion set. An auxiliary flat id
/// list mirrors the entity map's keys so that whole-store passes need no
/// map iterator.
pub struct PartsMaps {
    parts: BTreeMap<i64, Part>,
    fams: BTreeMap<i64, Vec<i64>>,
    projects: Vec<i64>,
    ids: Vec<i64>,
    sort_method: SortMethod,
    filter_method: FilterMethod,
    filtered_ids: Option<BTreeSet<i64>>,
}

/// The store's state as its contracts see it.
#[verifier::ext_equal]
pub struct StoreModel {
    pub parts: Map<i64, Part>,
    pub fams: Map<i64, Seq<i64>>,
    pub projects: Seq<i64>,
    pub sort_method: SortMethod,
    pub filter_method: FilterMethod,
    pub excluded: Option<Set<i64>>,
}

/// The exclusion set an entity map earns under a policy: nothing when the
/// policy allows all, otherwise exactly the ids whose part fails it.
pub open spec fn spec_exclusion(m: Map<i64, Part>, fm: FilterMethod) -> Option<Set<i64>> {
    if fm.spec_allows_all() {
        None
    } else {
        Some(Set::new(|id: i64| m.contains_key(id) && !fm.spec_passes(m[id])))
    }
}

/// What applying a filter policy does to the store's state.
pub open spec fn spec_apply_filter(m: StoreModel, fm: FilterMethod) -> StoreModel {
    StoreModel { filter_method: fm, excluded: spec_exclusion(m.parts, fm), ..m }
}

/// Applying the same filter policy twice yields exactly the state of
/// applying it once: the exclusion set depends only on the entity map,
/// which applying a filter leaves untouched.
pub proof fn lemma_apply_filter_idempotent(m: StoreModel, fm: FilterMethod)
    ensures
        spec_apply_filter(spec_apply_filter(m, fm), fm) == spec_apply_filter(m, fm),
{
}

impl PartsMaps {
    /// The entity map.
    pub closed spec fn parts_map(self) -> Map<i64, Part> {
        self.parts@
    }

    /// The parent-to-children index, as id sequences.
    pub closed spec fn fams_map(self) -> Map<i64, Seq<i64>> {
        self.fams@.map_values(|v: Vec<i64>| v@)
    }

    /// The root list.
    pub closed spec fn projects_seq(self) -> Seq<i64> {
        self.projects@
    }

    /// The auxiliary flat list of all ids.
    pub closed spec fn ids_seq(self) -> Seq<i64> {
        self.ids@
    }

    /// The active sort policy.
    pub closed spec fn sort_method_spec(self) -> SortMethod {
        self.sort_method
    }

    /// The active filter policy.
    pub closed spec fn filter_method_spec(self) -> FilterMethod {
        self.filter_method
    }

    /// The cached exclusion set, when one is kept.
    pub closed spec fn excluded(self) -> Option<Set<i64>> {
        match self.filtered_ids {
            Some(s) => Some(s@),
            None => None,
        }
    }

    /// The whole observable state.
    pub open spec fn model(self) -> StoreModel {
        StoreModel {
            parts: self.parts_map(),
            fams: self.fams_map(),
            projects: self.projects_seq(),
            sort_method: self.sort_method_spec(),
            filter_method: self.filter_method_spec(),
            excluded: self.excluded(),
        }
    }

    /// One children list is well formed: no duplicates, and every entry is
    /// a known part that names this parent.
    pub open spec fn child_list_wf(self, p: i64) -> bool {
        let m = self.parts_map();
        let l = self.fams_map()[p];
        &&& l.no_duplicates()
        &&& forall|k: int|
            0 <= k < l.len() ==> m.contains_key(#[trigger] l[k]) && m[l[k]].parent_id == Some(p)
    }

    /// The store's invariant: the children index covers exactly the known
    /// ids, every entity sits in exactly the sibling list its parent link
    /// names, sibling lists are duplicate-free and sorted under the active
    /// sort policy, and the exclusion set exists exactly when the active
    /// filter policy constrains something.
    pub open spec fn inv(self) -> bool {
        let m = self.parts_map();
        let f = self.fams_map();
        &&& f.dom() == m.dom()
        &&& forall|id: i64| #[trigger] m.contains_key(id) ==> m[id].id == id
        &&& forall|id: i64|
            #[trigger] m.contains_key(id) ==> match m[id].parent_id {
                None => self.projects_seq().contains(id),
                Some(p) => m.contains_key(p) && f[p].contains(id),
            }
        &&& self.projects_seq().no_duplicates()
        &&& forall|k: int|
            0 <= k < self.projects_seq().len() ==> m.contains_key(
                #[trigger] self.projects_seq()[k],
            ) && m[self.projects_seq()[k]].parent_id is None
        &&& forall|p: i64| #[trigger] f.contains_key(p) ==> self.child_list_wf(p)
        &&& self.ids_seq().no_duplicates()
        &&& self.ids_seq().to_set() == m.dom()
        &&& sorted_by(m, self.sort_method_spec(), self.projects_seq())
        &&& forall|p: i64|
            #[trigger] f.contains_key(p) ==> sorted_by(m, self.sort_method_spec(), f[p])
        &&& (self.excluded() is None <==> self.filter_method_spec().spec_allows_all())
        &&& match self.excluded() {
            None => true,
            Some(s) => s.subset_of(m.dom()),
        }
    }

    /// Whether the cached exclusion set matches the active policy evaluated
    /// on the current entities. Every operation maintains this;
    /// `apply_filter` establishes it outright.
    pub open spec fn filter_consistent(self) -> bool {
        self.excluded() == spec_exclusion(self.parts_map(), self.filter_method_spec())
    }

    /// Whether an id is currently visible: not held by the exclusion set.
    pub open spec fn spec_visible(self, id: i64) -> bool {
        match self.excluded() {
            None => true,
            Some(s) => !s.contains(id),
        }
    }

    /// Whether the id is not filtered out by the active filter policy.
    pub fn id_not_filtered(&self, id: i64) -> (r: bool)
        ensures
            r == self.spec_visible(id),
    {
        match &self.filtered_ids {
            None => true,
            Some(s) => !s.contains(&id),
        }
    }

    /// Looks one entity up by id.
    pub fn get_part(&self, id: i64) -> (r: Option<&Part>)
        ensures
            match r {
                Some(p) => self.parts_map().contains_key(id) && *p == self.parts_map()[id],
                None => !self.parts_map().contains_key(id),
            },
    {
        self.parts.get(&id)
    }

    /// The root list, ordered by the active sort policy.
    pub fn projects(&self) -> (r: &Vec<i64>)
        ensures
            r@ == self.projects_seq(),
    {
        &self.projects
    }

    /// The children of one entity, ordered by the active sort policy.
    pub fn children(&self, id: i64) -> (r: Option<&Vec<i64>>)
        ensures
            match r {
                Some(l) => self.fams_map().contains_key(id) && l@ == self.fams_map()[id],
                None => !self.fams_map().contains_key(id),
            },
    {
        self.fams.get(&id)
    }

    /// How many entities the store holds.
    pub fn len(&self) -> (r: usize)
        ensures
            r == self.parts_map().dom().len(),
    {
        self.parts.len()
    }

    /// Sets the active filter policy. A policy that allows all clears the
    /// exclusion set; any other policy has the set recomputed by evaluating
    /// its predicate against every entity in the map.
    pub fn apply_filter(&mut self, filter_method: FilterMethod)
        requires
            old(self).inv(),
        ensures
            final(self).inv(),
            final(self).filter_consistent(),
            final(self).model() == spec_apply_filter(old(self).model(), filter_method),
            filter_method.spec_allows_all() <==> final(self).excluded() is None,
    {
        if filter_method.allows_all() {
            self.filtered_ids = None;
        } else {
            let ghost m = self.parts@;
            let mut excluded: BTreeSet<i64> = BTreeSet::new();
            let n = self.ids.len();
            let mut k: usize = 0;
            while k < n
                invariant
                    k <= n,
                    n == self.ids@.len(),
                    m == self.parts@,
                    forall|k2: int| 0 <= k2 < n ==> m.contains_key(#[trigger] self.ids@[k2]),
                    forall|x: i64|
                        #[trigger] excluded@.contains(x) <==> (self.ids@.take(k as int).contains(x)
                            && m.contains_key(x) && !filter_method.spec_passes(m[x])),
                decreases n - k,
            {
                let id = self.ids[k];
                let part = match self.parts.get(&id) {
                    Some(p) => p,
                    None => unreached(),
                };
                let ghost pre_excluded = excluded@;
                if !filter_method.passes_filter(part) {
                    excluded.insert(id);
                }
                proof {
                    assert(self.ids@.take(k + 1) =~= self.ids@.take(k as int).push(id));
                    assert forall|x: i64| #[trigger] excluded@.contains(x) <==> (self.ids@.take(
                        k + 1,
                    ).contains(x) && m.contains_key(x) && !filter_method.spec_passes(m[x])) by {
                        if self.ids@.take(k as int).contains(x) {
                            assert(self.ids@.take(k + 1).contains(x));
                        }
                        if x == id {
                            assert(self.ids@.take(k + 1)[k as int] == x);
                            assert(self.ids@.take(k + 1).contains(x));
                        }
                        if self.ids@.take(k + 1).contains(x) && x != id {
                            let w = choose|w: int|
                                0 <= w < self.ids@.take(k + 1).len() && #[trigger] self.ids@.take(
                                    k + 1,
                                )[w] == x;
                            assert(self.ids@.take(k as int)[w] == x);
                            assert(self.ids@.take(k as int).contains(x));
                        }
                    }
                }
                k = k + 1;
            }
            proof {
                assert(self.ids@.take(n as int) =~= self.ids@);
            }
            self.filtered_ids = Some(excluded);
            proof {
                let exc = self.excluded().unwrap();
                assert forall|x: i64| #[trigger] exc.contains(x) <==> (m.contains_key(x)
                    && !filter_method.spec_passes(m[x])) by {
                    if m.contains_key(x) {
                        assert(self.ids@.to_set().contains(x));
                        assert(self.ids@.contains(x));
                    }
                    if self.ids@.contains(x) {
                        assert(self.ids@.to_set().contains(x));
                    }
                }
                assert(exc =~= Set::new(
                    |id2: i64| m.contains_key(id2) && !filter_method.spec_passes(m[id2]),
                ));
            }
        }
        self.filter_method = filter_method;
        proof {
            assert(self.model() =~= spec_apply_filter(old(self).model(), filter_method));
            match self.excluded() {
                None => {},
                Some(s) => {
                    assert(s.subset_of(self.parts_map().dom()));
                },
            }
        }
    }

    /// Re-sorts the root list under the active sort policy.
    fn sort_projects(&mut self)
        requires
            forall|k: int|
                0 <= k < old(self).projects_seq().len() ==> old(self).parts_map().contains_key(
                    #[trigger] old(self).projects_seq()[k],
                ),
        ensures
            final(self).parts_map() == old(self).parts_map(),
            final(self).fams_map() == old(self).fams_map(),
            final(self).ids_seq() == old(self).ids_seq(),
            final(self).sort_method_spec() == old(self).sort_method_spec(),
            final(self).filter_method_spec() == old(self).filter_method_spec(),
            final(self).excluded() == old(self).excluded(),
            final(self).projects_seq().to_multiset() == old(self).projects_seq().to_multiset(),
            sorted_by(
                final(self).parts_map(),
                final(self).sort_method_spec(),
                final(self).projects_seq(),
            ),
    {
        proof {
            assert forall|k: int| 0 <= k < self.projects@.len() implies self.parts@.contains_key(
                #[trigger] self.projects@[k],
            ) by {
                assert(old(self).parts_map().contains_key(old(self).projects_seq()[k]));
            }
        }
        self.sort_method.sort(&self.parts, &mut self.projects);
    }

    /// Re-sorts every children list under the active sort policy.
    fn sort_children(&mut self)
        requires
            forall|p: i64|
                #[trigger] old(self).fams_map().contains_key(p) ==> forall|k: int|
                    0 <= k < old(self).fams_map()[p].len() ==> old(self).parts_map().contains_key(
                        #[trigger] old(self).fams_map()[p][k],
                    ),
            forall|p: i64|
                #[trigger] old(self).fams_map().contains_key(p) ==> old(self).ids_seq().contains(p),
        ensures
            final(self).parts_map() == old(self).parts_map(),
            final(self).projects_seq() == old(self).projects_seq(),
            final(self).ids_seq() == old(self).ids_seq(),
            final(self).sort_method_spec() == old(self).sort_method_spec(),
            final(self).filter_method_spec() == old(self).filter_method_spec(),
            final(self).excluded() == old(self).excluded(),
            final(self).fams_map().dom() == old(self).fams_map().dom(),
            forall|p: i64|
                #[trigger] final(self).fams_map().contains_key(p) ==> {
                    &&& final(self).fams_map()[p].to_multiset() == old(self).fams_map()[p].to_multiset()
                    &&& sorted_by(
                        final(self).parts_map(),
                        final(self).sort_method_spec(),
                        final(self).fams_map()[p],
                    )
                },
    {
        let n = self.ids.len();
        let mut k: usize = 0;
        while k < n
            invariant
                k <= n,
                n == self.ids@.len(),
                self.parts@ == old(self).parts_map(),
                self.projects@ == old(self).projects_seq(),
                self.ids@ == old(self).ids_seq(),
                self.sort_method == old(self).sort_method_spec(),
                self.filter_method == old(self).filter_method_spec(),
                self.excluded() == old(self).excluded(),
                self.fams_map().dom() == old(self).fams_map().dom(),
                forall|p: i64|
                    #[trigger] self.fams_map().contains_key(p) ==> self.fams_map()[p].to_multiset() == old(self).fams_map()[p].to_multiset(),
                forall|p: i64, k2: int|
                    self.fams_map().contains_key(p) && 0 <= k2 < self.fams_map()[p].len()
                        ==> self.parts@.contains_key(#[trigger] self.fams_map()[p][k2]),
                forall|p: i64|
                    self.fams_map().contains_key(p) && self.ids@.take(k as int).contains(p)
                        ==> sorted_by(self.parts@, self.sort_method, #[trigger] self.fams_map()[p]),
            decreases n - k,
        {
            let id = self.ids[k];
            let ghost prev = self.fams_map();
            match self.fams.remove(&id) {
                Some(children) => {
                    let mut children = children;
                    proof {
                        assert(prev.contains_key(id));
                        assert(children@ == prev[id]);
                        assert forall|k2: int|
                            0 <= k2 < children@.len() implies self.parts@.contains_key(
                            #[trigger] children@[k2],
                        ) by {
                            assert(self.parts@.contains_key(prev[id][k2]));
                        }
                    }
                    self.sort_method.sort(&self.parts, &mut children);
                    let ghost sorted_list = children@;
                    self.fams.insert(id, children);
                    proof {
                        assert(self.fams_map().dom() =~= prev.dom());
                        assert(self.fams_map()[id] == sorted_list);
                        assert forall|p: i64|
                            #[trigger] self.fams_map().contains_key(p) && p != id implies
                            self.fams_map()[p] == prev[p] by {}
                        lemma_same_multiset_same_elements(sorted_list, prev[id]);
                        assert forall|k2: int|
                            0 <= k2 < sorted_list.len() implies self.parts@.contains_key(
                            #[trigger] sorted_list[k2],
                        ) by {
                            assert(sorted_list.contains(sorted_list[k2]));
                            assert(sorted_list.to_set().contains(sorted_list[k2]));
                            assert(prev[id].contains(sorted_list[k2]));
                            let w = choose|w: int|
                                0 <= w < prev[id].len() && #[trigger] prev[id][w]
                                    == sorted_list[k2];
                            assert(self.parts@.contains_key(prev[id][w]));
                        }
                        assert(sorted_by(self.parts@, self.sort_method, self.fams_map()[id]));
                    }
                },
                None => {},
            }
            proof {
                assert(self.ids@.take(k + 1) =~= self.ids@.take(k as int).push(id));
                assert forall|p: i64|
                    self.fams_map().contains_key(p) && self.ids@.take(k + 1).contains(p)
                        implies sorted_by(
                    self.parts@,
                    self.sort_method,
                    #[trigger] self.fams_map()[p],
                ) by {
                    if p != id {
                        assert(self.ids@.take(k as int).contains(p));
                        assert(self.fams_map()[p] == prev[p]);
                        assert(sorted_by(self.parts@, self.sort_method, prev[p]));
                    }
                }
                assert forall|p: i64, k2: int|
                    self.fams_map().contains_key(p) && 0 <= k2 < self.fams_map()[p].len()
                        implies self.parts@.contains_key(#[trigger] self.fams_map()[p][k2]) by {
                    if p != id {
                        assert(self.fams_map()[p] == prev[p]);
                        assert(self.parts@.contains_key(prev[p][k2]));
                    }
                }
            }
            k = k + 1;
        }
        proof {
            assert(self.ids@.take(n as int) =~= self.ids@);
            assert forall|p: i64| #[trigger] self.fams_map().contains_key(p) implies sorted_by(
                self.parts@,
                self.sort_method,
                self.fams_map()[p],
            ) by {
                assert(old(self).ids_seq().contains(p));
            }
        }
    }

    /// Re-sorts the root list and every children list.
    fn sort_all(&mut self)
        requires
            forall|k: int|
                0 <= k < old(self).projects_seq().len() ==> old(self).parts_map().contains_key(
                    #[trigger] old(self).projects_seq()[k],
                ),
            forall|p: i64|
                #[trigger] old(self).fams_map().contains_key(p) ==> forall|k: int|
                    0 <= k < old(self).fams_map()[p].len() ==> old(self).parts_map().contains_key(
                        #[trigger] old(self).fams_map()[p][k],
                    ),
            forall|p: i64|
                #[trigger] old(self).fams_map().contains_key(p) ==> old(self).ids_seq().contains(p),
        ensures
            final(self).parts_map() == old(self).parts_map(),
            final(self).ids_seq() == old(self).ids_seq(),
            final(self).sort_method_spec() == old(self).sort_method_spec(),
            final(self).filter_method_spec() == old(self).filter_method_spec(),
            final(self).excluded() == old(self).excluded(),
            final(self).projects_seq().to_multiset() == old(self).projects_seq().to_multiset(),
            sorted_by(
                final(self).parts_map(),
                final(self).sort_method_spec(),
                final(self).projects_seq(),
            ),
            final(self).fams_map().dom() == old(self).fams_map().dom(),
            forall|p: i64|
                #[trigger] final(self).fams_map().contains_key(p) ==> {
                    &&& final(self).fams_map()[p].to_multiset() == old(self).fams_map()[p].to_multiset()
                    &&& sorted_by(
                        final(self).parts_map(),
                        final(self).sort_method_spec(),
                        final(self).fams_map()[p],
                    )
                },
    {
        self.sort_projects();
        self.sort_children();
    }

    /// Sets the active sort policy and re-sorts every sibling list under
    /// it; nothing else changes.
    pub fn apply_sort(&mut self, method: SortMethod)
        requires
            old(self).inv(),
        ensures
            final(self).inv(),
            old(self).filter_consistent() ==> final(self).filter_consistent(),
            final(self).sort_method_spec() == method,
            final(self).parts_map() == old(self).parts_map(),
            final(self).filter_method_spec() == old(self).filter_method_spec(),
            final(self).excluded() == old(self).excluded(),
            final(self).projects_seq().to_multiset() == old(self).projects_seq().to_multiset(),
            final(self).fams_map().dom() == old(self).fams_map().dom(),
            forall|p: i64|
                #[trigger] final(self).fams_map().contains_key(p) ==> final(self).fams_map()[p].to_multiset() == old(self).fams_map()[p].to_multiset(),
    {
        self.sort_method = method;
        proof {
            assert(self.fams_map() == old(self).fams_map());
            assert(self.ids_seq().to_set() == self.parts_map().dom());
            assert forall|p: i64| #[trigger] self.fams_map().contains_key(p) implies
                self.ids_seq().contains(p) by {
                assert(self.parts_map().dom().contains(p));
                assert(self.ids_seq().to_set().contains(p));
            }
        }
        self.sort_all();
        proof {
            let m = self.parts_map();
            assert forall|p: i64| #[trigger] self.fams_map().contains_key(p) implies
                self.child_list_wf(p) by {
                lemma_same_multiset_same_elements(self.fams_map()[p], old(self).fams_map()[p]);
                assert(old(self).child_list_wf(p));
                assert forall|k: int| 0 <= k < self.fams_map()[p].len() implies m.contains_key(
                    #[trigger] self.fams_map()[p][k],
                ) && m[self.fams_map()[p][k]].parent_id == Some(p) by {
                    assert(self.fams_map()[p].contains(self.fams_map()[p][k]));
                    assert(self.fams_map()[p].to_set().contains(self.fams_map()[p][k]));
                    assert(old(self).fams_map()[p].contains(self.fams_map()[p][k]));
                }
            }
            lemma_same_multiset_same_elements(self.projects_seq(), old(self).projects_seq());
            assert forall|k: int| 0 <= k < self.projects_seq().len() implies m.contains_key(
                #[trigger] self.projects_seq()[k],
            ) && m[self.projects_seq()[k]].parent_id is None by {
                assert(self.projects_seq().contains(self.projects_seq()[k]));
                assert(self.projects_seq().to_set().contains(self.projects_seq()[k]));
                assert(old(self).projects_seq().contains(self.projects_seq()[k]));
            }
            assert forall|id: i64| #[trigger] m.contains_key(id) implies match m[id].parent_id {
                None => self.projects_seq().contains(id),
                Some(p) => m.contains_key(p) && self.fams_map()[p].contains(id),
            } by {
                match m[id].parent_id {
                    None => {
                        assert(old(self).projects_seq().contains(id));
                        assert(old(self).projects_seq().to_set().contains(id));
                        assert(self.projects_seq().contains(id));
                    },
                    Some(p) => {
                        assert(old(self).fams_map()[p].contains(id));
                        lemma_same_multiset_same_elements(
                            self.fams_map()[p],
                            old(self).fams_map()[p],
                        );
                        assert(old(self).fams_map()[p].to_set().contains(id));
                        assert(self.fams_map()[p].contains(id));
                    },
                }
            }
        }
    }

    /// Adds a confirmed new entity: it enters the entity map, its own
    /// (empty) children entry is created, and it joins its parent's
    /// children list (or the root list), which is re-sorted; a part the
    /// active filter rejects enters the exclusion set. Rejected, handing
    /// the entity back, when the id already exists. The caller must attach
    /// an entity only under an already-known parent id: anything else is an
    /// integrity violation between the store and the remote authority.
    pub fn add_part(&mut self, part: Part) -> (r: Result<(), Part>)
        requires
            old(self).inv(),
            part.parent_id matches Some(p) ==> old(self).parts_map().contains_key(p),
        ensures
            final(self).inv(),
            old(self).filter_consistent() ==> final(self).filter_consistent(),
            r is Ok <==> !old(self).parts_map().contains_key(part.id),
            r matches Err(rejected) ==> rejected == part && final(self).model() == old(self).model(),
            r is Ok ==> final(self).parts_map() == old(self).parts_map().insert(part.id, part),
            r is Ok ==> final(self).fams_map().dom() == old(self).fams_map().dom().insert(part.id),
            r is Ok ==> final(self).fams_map()[part.id] == Seq::<i64>::empty(),
            r is Ok ==> match part.parent_id {
                None => {
                    &&& final(self).projects_seq().to_multiset() == old(self).projects_seq().to_multiset().insert(part.id)
                    &&& forall|p: i64|
                        #[trigger] old(self).fams_map().contains_key(p) ==> final(self).fams_map()[p]
                            == old(self).fams_map()[p]
                },
                Some(pid) => {
                    &&& final(self).fams_map()[pid].to_multiset() == old(self).fams_map()[
                        pid
                    ].to_multiset().insert(part.id)
                    &&& forall|p: i64|
                        #[trigger] old(self).fams_map().contains_key(p) && p != pid
                            ==> final(self).fams_map()[p] == old(self).fams_map()[p]
                    &&& final(self).projects_seq() == old(self).projects_seq()
                },
            },
            r is Ok ==> final(self).excluded() == (match old(self).excluded() {
                None => None::<Set<i64>>,
                Some(s) => Some(
                    if old(self).filter_method_spec().spec_passes(part) {
                        s
                    } else {
                        s.insert(part.id)
                    },
                ),
            }),
            final(self).sort_method_spec() == old(self).sort_method_spec(),
            final(self).filter_method_spec() == old(self).filter_method_spec(),
    {
        if self.parts.contains_key(&part.id) {
            return Err(part);
        }
        let id = part.id;
        let parent = part.parent_id;
        let passes = self.filter_method.passes_filter(&part);
        self.parts.insert(id, part);
        let ghost m = self.parts@;
        match parent {
            Some(pid) => {
                let mut children = match self.fams.remove(&pid) {
                    Some(c) => c,
                    None => unreached(),
                };
                proof {
                    assert(children@ == old(self).fams_map()[pid]);
                    assert(old(self).child_list_wf(pid));
                    assert forall|k: int|
                        0 <= k < children@.len() implies old(self).parts_map().contains_key(
                        #[trigger] children@[k],
                    ) by {
                        assert(old(self).fams_map()[pid][k] == children@[k]);
                    }
                }
                children.push(id);
                self.sort_method.sort(&self.parts, &mut children);
                let ghost new_list = children@;
                self.fams.insert(pid, children);
                proof {
                    assert(self.fams_map()[pid] == new_list);
                    assert(new_list.to_multiset() == old(self).fams_map()[
                        pid
                    ].to_multiset().insert(id));
                }
            },
            None => {
                self.projects.push(id);
                proof {
                    assert forall|k: int|
                        0 <= k < self.projects@.len() implies self.parts@.contains_key(
                        #[trigger] self.projects@[k],
                    ) by {
                        if k < old(self).projects_seq().len() {
                            assert(old(self).parts_map().contains_key(
                                old(self).projects_seq()[k],
                            ));
                        }
                    }
                }
                self.sort_method.sort(&self.parts, &mut self.projects);
                proof {
                    assert(self.projects@.to_multiset() == old(self).projects_seq().to_multiset().insert(id));
                }
            },
        }
        self.fams.insert(id, Vec::new());
        self.ids.push(id);
        if !passes {
            match &mut self.filtered_ids {
                Some(s) => {
                    s.insert(id);
                },
                None => {},
            }
        }
        proof {
            let m0 = old(self).parts_map();
            let f0 = old(self).fams_map();
            let meth = old(self).sort_method_spec();
            assert(m == m0.insert(id, part));
            assert(self.parts@ == m);
            // the children index covers exactly the new id set
            assert(self.fams_map().dom() =~= f0.dom().insert(id));
            assert(self.fams_map()[id] =~= Seq::<i64>::empty());
            // the flat id list tracks the entity map
            assert(!old(self).ids_seq().contains(id)) by {
                if old(self).ids_seq().contains(id) {
                    assert(old(self).ids_seq().to_set().contains(id));
                }
            }
            lemma_push_no_duplicates(old(self).ids_seq(), id);
            lemma_push_to_set(old(self).ids_seq(), id);
            assert(self.ids@.to_set() =~= m.dom());
            // every sibling list except the one that grew is untouched
            assert forall|p: i64| #[trigger] f0.contains_key(p) && Some(p) != parent implies
                self.fams_map()[p] == f0[p] by {}
            // re-establish the invariant list by list
            let grown: Seq<i64> = match parent {
                Some(pid) => self.fams_map()[pid],
                None => self.projects_seq(),
            };
            let grown0: Seq<i64> = match parent {
                Some(pid) => f0[pid],
                None => old(self).projects_seq(),
            };
            assert(grown.to_multiset() == grown0.to_multiset().insert(id));
            assert(grown.to_multiset().contains(id));
            assert(grown.contains(id));
            assert(!grown0.contains(id)) by {
                if grown0.contains(id) {
                    let w = choose|w: int| 0 <= w < grown0.len() && #[trigger] grown0[w] == id;
                    match parent {
                        Some(pid) => {
                            assert(old(self).child_list_wf(pid));
                            assert(m0.contains_key(grown0[w]));
                        },
                        None => {
                            assert(m0.contains_key(grown0[w]));
                        },
                    }
                }
            }
            lemma_push_no_duplicates(grown0, id);
            lemma_same_multiset_same_elements(grown, grown0.push(id));
            assert(grown.no_duplicates());
            assert forall|e: i64| #[trigger] grown.contains(e) implies grown0.contains(e) || e
                == id by {
                assert(grown.to_set().contains(e));
                assert(grown0.push(id).to_set().contains(e));
                assert(grown0.push(id).contains(e));
                let w = choose|w: int|
                    0 <= w < grown0.push(id).len() && #[trigger] grown0.push(id)[w] == e;
                if w < grown0.len() {
                    assert(grown0[w] == e);
                }
            }
            // membership of every entity in its sibling list
            assert forall|id2: i64| #[trigger] m.contains_key(id2) implies match m[id2].parent_id {
                None => self.projects_seq().contains(id2),
                Some(p) => m.contains_key(p) && self.fams_map()[p].contains(id2),
            } by {
                if id2 != id {
                    assert(m[id2] == m0[id2]);
                    match m0[id2].parent_id {
                        None => {
                            assert(old(self).projects_seq().contains(id2));
                            if parent is None {
                                assert(grown0.push(id).contains(id2));
                                assert(grown.to_set().contains(id2));
                                assert(grown.contains(id2));
                            }
                        },
                        Some(p) => {
                            assert(f0[p].contains(id2));
                            if parent == Some(p) {
                                assert(grown0.push(id).contains(id2));
                                assert(grown.to_set().contains(id2));
                                assert(grown.contains(id2));
                            } else {
                                assert(self.fams_map()[p] == f0[p]);
                            }
                        },
                    }
                }
            }
            // root-list entries are roots; children lists are well formed
            assert forall|k: int| 0 <= k < self.projects_seq().len() implies m.contains_key(
                #[trigger] self.projects_seq()[k],
            ) && m[self.projects_seq()[k]].parent_id is None by {
                let e = self.projects_seq()[k];
                if parent is None {
                    assert(grown.contains(e));
                    if e != id {
                        assert(grown0.contains(e));
                        let w = choose|w: int| 0 <= w < grown0.len() && #[trigger] grown0[w] == e;
                        assert(m0.contains_key(e) && m0[e].parent_id is None);
                    }
                } else {
                    assert(self.projects_seq() == old(self).projects_seq());
                    assert(m0.contains_key(e) && m0[e].parent_id is None);
                    assert(e != id);
                }
            }
            assert forall|p: i64| #[trigger] self.fams_map().contains_key(p) implies
                self.child_list_wf(p) by {
                if p == id {
                } else if Some(p) == parent {
                    assert forall|k: int| 0 <= k < grown.len() implies m.contains_key(
                        #[trigger] grown[k],
                    ) && m[grown[k]].parent_id == Some(p) by {
                        let e = grown[k];
                        assert(grown.contains(e));
                        if e != id {
                            assert(grown0.contains(e));
                            let w = choose|w: int|
                                0 <= w < grown0.len() && #[trigger] grown0[w] == e;
                            assert(old(self).child_list_wf(p));
                            assert(m0.contains_key(e) && m0[e].parent_id == Some(p));
                            assert(e != id);
                        }
                    }
                    assert(self.child_list_wf(p));
                } else {
                    assert(self.fams_map()[p] == f0[p]);
                    assert(old(self).child_list_wf(p));
                    assert forall|k: int| 0 <= k < self.fams_map()[p].len() implies m.contains_key(
                        #[trigger] self.fams_map()[p][k],
                    ) && m[self.fams_map()[p][k]].parent_id == Some(p) by {
                        let e = f0[p][k];
                        assert(m0.contains_key(e) && m0[e].parent_id == Some(p));
                        assert(e != id);
                    }
                }
            }
            // sortedness: the grown list was re-sorted, the rest kept its
            // parts untouched
            assert forall|p: i64| #[trigger] self.fams_map().contains_key(p) implies sorted_by(
                m,
                meth,
                self.fams_map()[p],
            ) by {
                if p == id {
                } else if Some(p) == parent {
                } else {
                    assert(self.fams_map()[p] == f0[p]);
                    assert(old(self).child_list_wf(p));
                    assert forall|k: int| 0 <= k < f0[p].len() implies {
                        &&& m0.contains_key(#[trigger] f0[p][k])
                        &&& m.contains_key(f0[p][k])
                        &&& m0[f0[p][k]] == m[f0[p][k]]
                    } by {
                        assert(m0.contains_key(f0[p][k]));
                        assert(f0[p][k] != id);
                    }
                    lemma_sorted_same_parts(m0, m, meth, f0[p]);
                }
            }
            if parent is Some {
                assert(self.projects_seq() == old(self).projects_seq());
                assert forall|k: int| 0 <= k < self.projects_seq().len() implies {
                    &&& m0.contains_key(#[trigger] self.projects_seq()[k])
                    &&& m.contains_key(self.projects_seq()[k])
                    &&& m0[self.projects_seq()[k]] == m[self.projects_seq()[k]]
                } by {
                    assert(old(self).projects_seq()[k] == self.projects_seq()[k]);
                    assert(m0.contains_key(old(self).projects_seq()[k]));
                    assert(self.projects_seq()[k] != id);
                }
                lemma_sorted_same_parts(m0, m, meth, self.projects_seq());
            }
            // the exclusion set stays within the id set and matches the
            // policy when it did before
            match old(self).excluded() {
                None => {
                    assert(self.excluded() is None);
                },
                Some(s0) => {
                    if !old(self).filter_method_spec().spec_passes(part) {
                        assert(self.excluded() == Some(s0.insert(id)));
                        assert(s0.insert(id).subset_of(m.dom()));
                    } else {
                        assert(self.excluded() == Some(s0));
                        assert(s0.subset_of(m.dom()));
                    }
                },
            }
            if old(self).filter_consistent() {
                match self.excluded() {
                    None => {},
                    Some(s) => {
                        assert(s =~= Set::new(
                            |y: i64| m.contains_key(y) && !self.filter_method.spec_passes(m[y]),
                        ));
                    },
                }
            }
        }
        Ok(())
    }

    /// Replaces a stored entity in place, re-sorts the sibling list it
    /// belongs to under its new attribute values, and re-evaluates the
    /// entity against the active filter, so the cached exclusion set stays
    /// consistent with the policy over the updated map. Rejected, handing
    /// the entity back, when no entity with that id exists or when the
    /// update would change the parent: moving an entity between sibling
    /// lists is unsupported.
    pub fn update_part(&mut self, part: Part) -> (r: Result<(), Part>)
        requires
            old(self).inv(),
        ensures
            final(self).inv(),
            old(self).filter_consistent() ==> final(self).filter_consistent(),
            r is Ok <==> (old(self).parts_map().contains_key(part.id) && old(self).parts_map()[
                part.id
            ].parent_id == part.parent_id),
            r matches Err(rejected) ==> rejected == part && final(self).model() == old(
                self,
            ).model(),
            r is Ok ==> final(self).parts_map() == old(self).parts_map().insert(part.id, part),
            r is Ok ==> final(self).fams_map().dom() == old(self).fams_map().dom(),
            r is Ok ==> final(self).projects_seq().to_multiset() == old(
                self,
            ).projects_seq().to_multiset(),
            r is Ok ==> forall|p: i64|
                #[trigger] final(self).fams_map().contains_key(p) ==> final(self).fams_map()[
                    p
                ].to_multiset() == old(self).fams_map()[p].to_multiset(),
            r is Ok ==> final(self).excluded() == (match old(self).excluded() {
                None => None::<Set<i64>>,
                Some(s) => Some(
                    if old(self).filter_method_spec().spec_passes(part) {
                        s.remove(part.id)
                    } else {
                        s.insert(part.id)
                    },
                ),
            }),
            r is Err ==> final(self).excluded() == old(self).excluded(),
            final(self).sort_method_spec() == old(self).sort_method_spec(),
            final(self).filter_method_spec() == old(self).filter_method_spec(),
    {
        let id = part.id;
        let stored_parent = match self.parts.get(&id) {
            None => {
                return Err(part);
            },
            Some(stored) => stored.parent_id,
        };
        let same_parent = match (stored_parent, part.parent_id) {
            (None, None) => true,
            (Some(a), Some(b)) => a == b,
            _ => false,
        };
        if !same_parent {
            return Err(part);
        }
        let parent = part.parent_id;
        let passes = self.filter_method.passes_filter(&part);
        match &mut self.filtered_ids {
            Some(s) => {
                if passes {
                    s.remove(&id);
                } else {
                    s.insert(id);
                }
            },
            None => {},
        }
        self.parts.insert(id, part);
        let ghost m = self.parts@;
        let ghost m0 = old(self).parts_map();
        let ghost f0 = old(self).fams_map();
        let ghost meth = old(self).sort_method_spec();
        proof {
            assert(m == m0.insert(id, part));
            assert(m.dom() =~= m0.dom());
        }
        match parent {
            Some(pid) => {
                let mut children = match self.fams.remove(&pid) {
                    Some(c) => c,
                    None => unreached(),
                };
                proof {
                    assert(children@ == f0[pid]);
                    assert(old(self).child_list_wf(pid));
                    assert forall|k: int|
                        0 <= k < children@.len() implies self.parts@.contains_key(
                        #[trigger] children@[k],
                    ) by {
                        assert(f0[pid][k] == children@[k]);
                        assert(m0.contains_key(children@[k]));
                    }
                }
                self.sort_method.sort(&self.parts, &mut children);
                let ghost new_list = children@;
                self.fams.insert(pid, children);
                proof {
                    assert(self.fams_map()[pid] == new_list);
                    assert(self.fams_map().dom() =~= f0.dom());
                }
            },
            None => {
                proof {
                    assert forall|k: int|
                        0 <= k < self.projects@.len() implies self.parts@.contains_key(
                        #[trigger] self.projects@[k],
                    ) by {
                        assert(m0.contains_key(old(self).projects_seq()[k]));
                    }
                }
                self.sort_method.sort(&self.parts, &mut self.projects);
            },
        }
        proof {
            let changed: Seq<i64> = match parent {
                Some(pid) => self.fams_map()[pid],
                None => self.projects_seq(),
            };
            let changed0: Seq<i64> = match parent {
                Some(pid) => f0[pid],
                None => old(self).projects_seq(),
            };
            assert(changed.to_multiset() == changed0.to_multiset());
            lemma_same_multiset_same_elements(changed, changed0);
            // membership: only one list was permuted, the others kept
            assert forall|id2: i64| #[trigger] m.contains_key(id2) implies match m[id2].parent_id {
                None => self.projects_seq().contains(id2),
                Some(p) => m.contains_key(p) && self.fams_map()[p].contains(id2),
            } by {
                let par2 = if id2 == id {
                    part.parent_id
                } else {
                    m0[id2].parent_id
                };
                assert(m[id2].parent_id == par2);
                assert(m0[id2].parent_id == par2);
                match par2 {
                    None => {
                        assert(old(self).projects_seq().contains(id2));
                        if parent is None {
                            assert(changed0.to_set().contains(id2));
                            assert(changed.contains(id2));
                        }
                    },
                    Some(p) => {
                        assert(f0[p].contains(id2));
                        if parent == Some(p) {
                            assert(changed0.to_set().contains(id2));
                            assert(changed.contains(id2));
                        } else {
                            assert(self.fams_map()[p] == f0[p]);
                        }
                    },
                }
            }
            // roots stay roots; children lists stay well formed
            assert forall|k: int| 0 <= k < self.projects_seq().len() implies m.contains_key(
                #[trigger] self.projects_seq()[k],
            ) && m[self.projects_seq()[k]].parent_id is None by {
                let e = self.projects_seq()[k];
                if parent is None {
                    assert(changed.contains(e));
                    assert(changed0.to_set().contains(e));
                    assert(changed0.contains(e));
                    let w = choose|w: int| 0 <= w < changed0.len() && #[trigger] changed0[w] == e;
                    assert(m0.contains_key(e) && m0[e].parent_id is None);
                    assert(m[e].parent_id == m0[e].parent_id);
                } else {
                    assert(self.projects_seq() == old(self).projects_seq());
                    assert(m0.contains_key(e) && m0[e].parent_id is None);
                    assert(m[e].parent_id == m0[e].parent_id);
                }
            }
            assert forall|p: i64| #[trigger] self.fams_map().contains_key(p) implies
                self.child_list_wf(p) by {
                assert(old(self).child_list_wf(p));
                if Some(p) == parent {
                    assert(changed.no_duplicates());
                    assert forall|k: int| 0 <= k < changed.len() implies m.contains_key(
                        #[trigger] changed[k],
                    ) && m[changed[k]].parent_id == Some(p) by {
                        let e = changed[k];
                        assert(changed.contains(e));
                        assert(changed0.to_set().contains(e));
                        assert(changed0.contains(e));
                        let w = choose|w: int|
                            0 <= w < changed0.len() && #[trigger] changed0[w] == e;
                        assert(m0.contains_key(e) && m0[e].parent_id == Some(p));
                        assert(m[e].parent_id == m0[e].parent_id);
                    }
                    assert(self.child_list_wf(p));
                } else {
                    assert(self.fams_map()[p] == f0[p]);
                    assert forall|k: int| 0 <= k < self.fams_map()[p].len() implies m.contains_key(
                        #[trigger] self.fams_map()[p][k],
                    ) && m[self.fams_map()[p][k]].parent_id == Some(p) by {
                        let e = f0[p][k];
                        assert(m0.contains_key(e) && m0[e].parent_id == Some(p));
                        assert(m[e].parent_id == m0[e].parent_id);
                        assert(e != id || m[e] == part);
                    }
                }
            }
            // sortedness: untouched lists kept their keys, except that they
            // never name the updated id
            assert forall|p: i64| #[trigger] self.fams_map().contains_key(p) implies sorted_by(
                m,
                meth,
                self.fams_map()[p],
            ) by {
                if Some(p) == parent {
                } else {
                    assert(self.fams_map()[p] == f0[p]);
                    assert(old(self).child_list_wf(p));
                    assert forall|k: int| 0 <= k < f0[p].len() implies {
                        &&& m0.contains_key(#[trigger] f0[p][k])
                        &&& m.contains_key(f0[p][k])
                        &&& m0[f0[p][k]] == m[f0[p][k]]
                    } by {
                        assert(m0.contains_key(f0[p][k]));
                        assert(m0[f0[p][k]].parent_id == Some(p));
                        assert(f0[p][k] != id);
                    }
                    lemma_sorted_same_parts(m0, m, meth, f0[p]);
                }
            }
            if parent is Some {
                assert forall|k: int| 0 <= k < self.projects_seq().len() implies {
                    &&& m0.contains_key(#[trigger] self.projects_seq()[k])
                    &&& m.contains_key(self.projects_seq()[k])
                    &&& m0[self.projects_seq()[k]] == m[self.projects_seq()[k]]
                } by {
                    assert(self.projects_seq()[k] == old(self).projects_seq()[k]);
                    assert(m0.contains_key(old(self).projects_seq()[k]));
                    assert(m0[self.projects_seq()[k]].parent_id is None);
                    assert(self.projects_seq()[k] != id);
                }
                lemma_sorted_same_parts(m0, m, meth, self.projects_seq());
            }
            assert(self.ids@.to_set() =~= m.dom());
            // the exclusion set was re-evaluated for the updated id alone
            match old(self).excluded() {
                None => {
                    assert(self.excluded() is None);
                },
                Some(s0) => {
                    let s = self.excluded().unwrap();
                    assert(s == if old(self).filter_method_spec().spec_passes(part) {
                        s0.remove(id)
                    } else {
                        s0.insert(id)
                    });
                    assert(s.subset_of(m.dom())) by {
                        assert forall|y: i64| #[trigger] s.contains(y) implies m.dom().contains(
                            y,
                        ) by {
                            if y != id {
                                assert(s0.contains(y));
                                assert(m0.dom().contains(y));
                            }
                        }
                    }
                    if old(self).filter_consistent() {
                        assert(s =~= Set::new(
                            |y: i64| m.contains_key(y) && !self.filter_method.spec_passes(m[y]),
                        )) by {
                            assert forall|y: i64| #[trigger] s.contains(y) <==> (m.contains_key(y)
                                && !self.filter_method.spec_passes(m[y])) by {
                                if y != id {
                                    assert(s.contains(y) == s0.contains(y));
                                    if m.contains_key(y) {
                                        assert(m[y] == m0[y]);
                                    }
                                } else {
                                    assert(m[id] == part);
                                }
                            }
                        }
                    }
                },
            }
        }
        Ok(())
    }

    /// Builds a store from a full snapshot: every record is parsed and
    /// validated, the children index gets an entry for every entity, the
    /// root list is assembled, and every sibling list comes out sorted
    /// under the initial policy (by id) with no filter active. A snapshot
    /// with an unparseable record, a repeated id or an unknown parent id is
    /// fatal: no store is produced at all.
    #[verifier::rlimit(100)]
    pub fn new(raw: Vec<RawPart>) -> (r: Option<PartsMaps>)
        ensures
            r is Some <==> spec_load_ok(raw@),
            r matches Some(s) ==> {
                &&& s.inv()
                &&& s.filter_consistent()
                &&& s.parts_map() == spec_load_map(raw@)
                &&& s.sort_method_spec() is Id
                &&& s.filter_method_spec().spec_allows_all()
                &&& s.excluded() is None
            },
    {
        let n = raw.len();
        // parse every record of the snapshot
        let mut parsed: Vec<Part> = Vec::new();
        let mut k: usize = 0;
        while k < n
            invariant
                k <= n,
                n == raw@.len(),
                parsed@.len() == k,
                forall|j: int| 0 <= j < k ==> Some(#[trigger] parsed@[j]) == spec_parse_part(raw@[j]),
            decreases n - k,
        {
            match parse_part(&raw[k]) {
                Some(p) => {
                    parsed.push(p);
                },
                None => {
                    return None;
                },
            }
            k = k + 1;
        }
        let ghost all_parts = parsed@;
        // record a flat (id, parent) table before the records move
        let mut idparents: Vec<(i64, Option<i64>)> = Vec::new();
        let mut k: usize = 0;
        while k < n
            invariant
                k <= n,
                n == raw@.len(),
                parsed@ == all_parts,
                all_parts.len() == n,
                idparents@.len() == k,
                forall|j: int|
                    0 <= j < k ==> #[trigger] idparents@[j] == (all_parts[j].id, all_parts[j].parent_id),
            decreases n - k,
        {
            let id = parsed[k].id;
            let par = parsed[k].parent_id;
            idparents.push((id, par));
            k = k + 1;
        }
        // build the entity map from the back, rejecting repeated ids
        let mut parts: BTreeMap<i64, Part> = BTreeMap::new();
        proof {
            assert(parsed@ == all_parts.take(parsed@.len() as int));
            assert(raw@.skip(n as int) =~= Seq::<RawPart>::empty());
        }
        while parsed.len() > 0
            invariant
                n == raw@.len(),
                all_parts.len() == n,
                parsed@.len() <= n,
                forall|j: int| 0 <= j < n ==> Some(#[trigger] all_parts[j]) == spec_parse_part(raw@[j]),
                parsed@ == all_parts.take(parsed@.len() as int),
                parts@ == spec_load_map(raw@.skip(parsed@.len() as int)),
                forall|i: int, j: int|
                    parsed@.len() <= i < j < n ==> (#[trigger] all_parts[i]).id != (
                    #[trigger] all_parts[j]).id,
            decreases parsed@.len(),
        {
            let ghost m_pre = parsed@.len() as int;
            let p = match parsed.pop() {
                Some(p) => p,
                None => unreached(),
            };
            let pid = p.id;
            proof {
                assert(p == all_parts[m_pre - 1]);
                assert(parsed@ =~= all_parts.take(m_pre - 1));
                assert forall|i: int| 0 <= i < raw@.skip(m_pre).len() implies (
                #[trigger] spec_parse_part(raw@.skip(m_pre)[i])) is Some by {
                    assert(raw@.skip(m_pre)[i] == raw@[m_pre + i]);
                    assert(Some(all_parts[m_pre + i]) == spec_parse_part(raw@[m_pre + i]));
                }
            }
            if parts.contains_key(&pid) {
                proof {
                    lemma_load_map_contains(raw@.skip(m_pre), pid);
                    let j = choose|j: int|
                        0 <= j < raw@.skip(m_pre).len() && (#[trigger] spec_parse_part(
                            raw@.skip(m_pre)[j],
                        )).unwrap().id == pid;
                    assert(raw@.skip(m_pre)[j] == raw@[m_pre + j]);
                    assert(spec_parse_part(raw@[m_pre - 1]).unwrap().id == pid);
                    assert(spec_parse_part(raw@[m_pre + j]).unwrap().id == pid);
                    assert(!spec_load_ok(raw@));
                }
                return None;
            }
            parts.insert(pid, p);
            proof {
                lemma_load_map_contains(raw@.skip(m_pre), pid);
                assert(raw@.skip(m_pre - 1).drop_first() =~= raw@.skip(m_pre));
                assert(raw@.skip(m_pre - 1).first() == raw@[m_pre - 1]);
                assert(parts@ == spec_load_map(raw@.skip(m_pre - 1)));
                assert forall|i: int, j: int|
                    m_pre - 1 <= i < j < n implies (#[trigger] all_parts[i]).id != (
                #[trigger] all_parts[j]).id by {
                    if i == m_pre - 1 {
                        assert(Some(all_parts[j]) == spec_parse_part(raw@[j]));
                        assert(raw@.skip(m_pre)[j - m_pre] == raw@[j]);
                        if all_parts[i].id == all_parts[j].id {
                            assert(spec_parse_part(raw@.skip(m_pre)[j - m_pre]).unwrap().id
                                == pid);
                            assert(spec_load_map(raw@.skip(m_pre)).contains_key(pid));
                        }
                    }
                }
            }
        }
        proof {
            assert(raw@.skip(0) =~= raw@);
            assert(parts@ == spec_load_map(raw@));
            assert forall|i: int| 0 <= i < raw@.len() implies (#[trigger] spec_parse_part(
                raw@[i],
            )) is Some by {
                assert(Some(all_parts[i]) == spec_parse_part(raw@[i]));
            }
            assert forall|i: int, j: int| 0 <= i < j < raw@.len() implies (
            #[trigger] spec_parse_part(raw@[i])).unwrap().id != (#[trigger] spec_parse_part(
                raw@[j],
            )).unwrap().id by {
                assert(Some(all_parts[i]) == spec_parse_part(raw@[i]));
                assert(Some(all_parts[j]) == spec_parse_part(raw@[j]));
                assert(all_parts[i].id != all_parts[j].id);
            }
            assert forall|j: int| 0 <= j < n implies parts@.contains_key(
                (#[trigger] all_parts[j]).id,
            ) && parts@[all_parts[j].id] == all_parts[j] by {
                lemma_load_map_at(raw@, j);
            }
        }
        // one empty children entry and one flat id entry per entity
        let mut fams: BTreeMap<i64, Vec<i64>> = BTreeMap::new();
        let mut ids: Vec<i64> = Vec::new();
        let mut k: usize = 0;
        while k < n
            invariant
                k <= n,
                n == raw@.len(),
                all_parts.len() == n,
                idparents@.len() == n,
                forall|j: int|
                    0 <= j < n ==> #[trigger] idparents@[j] == (all_parts[j].id, all_parts[j].parent_id),
                forall|i: int, j: int|
                    0 <= i < j < n ==> (#[trigger] all_parts[i]).id != (#[trigger] all_parts[j]).id,
                ids@.len() == k,
                forall|j: int| 0 <= j < k ==> #[trigger] ids@[j] == all_parts[j].id,
                ids@.no_duplicates(),
                forall|p: i64|
                    #[trigger] fams.view().contains_key(p) ==> exists|j: int|
                        0 <= j < k && (#[trigger] all_parts[j]).id == p,
                forall|j: int| 0 <= j < k ==> fams.view().contains_key((#[trigger] all_parts[j]).id),
                forall|p: i64|
                    #[trigger] fams.view().contains_key(p) ==> fams.view()[p]@ == Seq::<i64>::empty(),
            decreases n - k,
        {
            let (pid, _par) = idparents[k];
            proof {
                assert(pid == all_parts[k as int].id);
            }
            fams.insert(pid, Vec::new());
            ids.push(pid);
            proof {
                assert forall|j: int| 0 <= j < k + 1 implies #[trigger] ids@[j] == all_parts[
                    j
                ].id by {}
                assert(ids@.no_duplicates()) by {
                    assert forall|i: int, j: int|
                        0 <= i < ids@.len() && 0 <= j < ids@.len() && i != j implies ids@[i]
                        != ids@[j] by {
                        assert(ids@[i] == all_parts[i].id && ids@[j] == all_parts[j].id);
                    }
                }
                assert forall|p: i64| #[trigger] fams.view().contains_key(p) implies exists|j: int|
                    0 <= j < k + 1 && (#[trigger] all_parts[j]).id == p by {
                    if p == pid {
                        assert(all_parts[k as int].id == p);
                    }
                }
                assert forall|j: int| 0 <= j < k + 1 implies fams.view().contains_key(
                    (#[trigger] all_parts[j]).id,
                ) by {}
            }
            k = k + 1;
        }
        // attach every entity to its parent's children list or the root list
        let mut projects: Vec<i64> = Vec::new();
        let mut k: usize = 0;
        while k < n
            invariant
                k <= n,
                n == raw@.len(),
                all_parts.len() == n,
                idparents@.len() == n,
                forall|j: int|
                    0 <= j < n ==> #[trigger] idparents@[j] == (all_parts[j].id, all_parts[j].parent_id),
                forall|i: int, j: int|
                    0 <= i < j < n ==> (#[trigger] all_parts[i]).id != (#[trigger] all_parts[j]).id,
                forall|j: int|
                    0 <= j < n ==> parts@.contains_key((#[trigger] all_parts[j]).id) && parts@[
                        all_parts[j].id
                    ] == all_parts[j],
                forall|j: int| 0 <= j < n ==> Some(#[trigger] all_parts[j]) == spec_parse_part(raw@[j]),
                parts@ == spec_load_map(raw@),
                forall|p: i64|
                    #[trigger] fams.view().contains_key(p) ==> exists|j: int|
                        0 <= j < n && (#[trigger] all_parts[j]).id == p,
                forall|j: int| 0 <= j < n ==> fams.view().contains_key((#[trigger] all_parts[j]).id),
                forall|i: int| 0 <= i < raw@.len() ==> (#[trigger] spec_parse_part(raw@[i])) is Some,
                forall|p: i64, x: i64|
                    fams.view().contains_key(p) && #[trigger] fams.view()[p]@.contains(x)
                        ==> exists|j: int|
                        0 <= j < k && #[trigger] all_parts[j].id == x && all_parts[j].parent_id
                            == Some(p),
                forall|p: i64|
                    #[trigger] fams.view().contains_key(p) ==> fams.view()[p]@.no_duplicates(),
                forall|x: i64|
                    #[trigger] projects@.contains(x) ==> exists|j: int|
                        0 <= j < k && #[trigger] all_parts[j].id == x && all_parts[j].parent_id
                            is None,
                projects@.no_duplicates(),
                forall|j: int|
                    0 <= j < k ==> match (#[trigger] all_parts[j]).parent_id {
                        None => projects@.contains(all_parts[j].id),
                        Some(pp) => fams.view().contains_key(pp) && fams.view()[pp]@.contains(
                            all_parts[j].id,
                        ) && parts@.contains_key(pp),
                    },
            decreases n - k,
        {
            let (cid, par) = idparents[k];
            proof {
                assert(cid == all_parts[k as int].id);
                assert(par == all_parts[k as int].parent_id);
            }
            match par {
                None => {
                    proof {
                        assert(!projects@.contains(cid)) by {
                            if projects@.contains(cid) {
                                let j = choose|j: int|
                                    0 <= j < k && #[trigger] all_parts[j].id == cid && all_parts[
                                        j
                                    ].parent_id is None;
                            }
                        }
                        lemma_push_no_duplicates(projects@, cid);
                    }
                    projects.push(cid);
                    proof {
                        assert forall|x: i64| #[trigger] projects@.contains(x) implies exists|
                            j: int,
                        |
                            0 <= j < k + 1 && #[trigger] all_parts[j].id == x && all_parts[
                                j
                            ].parent_id is None by {
                            if x == cid {
                                assert(all_parts[k as int].id == x);
                            } else {
                                let w = choose|w: int|
                                    0 <= w < projects@.len() && #[trigger] projects@[w] == x;
                                assert(projects@.drop_last().contains(x) || x == cid);
                            }
                        }
                    }
                },
                Some(pp) => {
                    if !parts.contains_key(&pp) {
                        proof {
                            assert(spec_parse_part(raw@[k as int]).unwrap().parent_id == Some(pp));
                            assert(!spec_load_map(raw@).contains_key(pp));
                            assert(!spec_load_ok(raw@));
                        }
                        return None;
                    }
                    proof {
                        lemma_load_map_contains(raw@, pp);
                        let j = choose|j: int|
                            0 <= j < raw@.len() && (#[trigger] spec_parse_part(
                                raw@[j],
                            )).unwrap().id == pp;
                        assert(Some(all_parts[j]) == spec_parse_part(raw@[j]));
                        assert(all_parts[j].id == pp);
                        assert(fams.view().contains_key(pp));
                    }
                    let ghost fams_prev = fams@;
                    let mut ch = match fams.remove(&pp) {
                        Some(c) => c,
                        None => unreached(),
                    };
                    let ghost ch_prev = ch@;
                    proof {
                        assert(!ch@.contains(cid)) by {
                            if ch@.contains(cid) {
                                let j = choose|j: int|
                                    0 <= j < k && #[trigger] all_parts[j].id == cid && all_parts[
                                        j
                                    ].parent_id == Some(pp);
                            }
                        }
                        lemma_push_no_duplicates(ch@, cid);
                    }
                    ch.push(cid);
                    fams.insert(pp, ch);
                    proof {
                        assert forall|p: i64, x: i64|
                            fams.view().contains_key(p) && #[trigger] fams.view()[p]@.contains(x)
                                implies exists|j: int|
                                0 <= j < k + 1 && #[trigger] all_parts[j].id == x && all_parts[
                                    j
                                ].parent_id == Some(p) by {
                            if p == pp {
                                assert(fams.view()[p]@ == ch_prev.push(cid));
                                if x == cid {
                                    assert(all_parts[k as int].id == x);
                                } else {
                                    let w = choose|w: int|
                                        0 <= w < ch_prev.push(cid).len()
                                            && #[trigger] ch_prev.push(cid)[w] == x;
                                    assert(ch_prev[w] == x);
                                    assert(ch_prev.contains(x));
                                }
                            }
                        }
                        assert forall|j: int| 0 <= j < k + 1 implies match (
                        #[trigger] all_parts[j]).parent_id {
                            None => projects@.contains(all_parts[j].id),
                            Some(pp2) => fams.view().contains_key(pp2) && fams.view()[
                                pp2
                            ]@.contains(all_parts[j].id) && parts@.contains_key(pp2),
                        } by {
                            if j < k {
                                match all_parts[j].parent_id {
                                    None => {},
                                    Some(pp2) => {
                                        if pp2 == pp {
                                            assert(fams_prev[pp2]@.contains(all_parts[j].id));
                                            assert(fams.view()[pp2]@ == ch_prev.push(cid));
                                            assert(ch_prev == fams_prev[pp2]@);
                                            assert(ch_prev.push(cid).contains(all_parts[j].id));
                                        } else {
                                            assert(fams.view()[pp2] == fams_prev[pp2]);
                                        }
                                    },
                                }
                            } else {
                                assert(fams.view()[pp]@ == ch_prev.push(cid));
                                assert(ch_prev.push(cid)[ch_prev.len() as int] == cid);
                                assert(ch_prev.push(cid).contains(cid));
                            }
                        }
                    }
                },
            }
            k = k + 1;
        }
        let store = PartsMaps {
            parts,
            fams,
            projects,
            ids,
            sort_method: SortMethod::Id,
            filter_method: FilterMethod::default(),
            filtered_ids: None,
        };
        let mut store = store;
        proof {
            // the snapshot passed every check
            assert(spec_load_ok(raw@)) by {
                assert forall|i: int| 0 <= i < raw@.len() implies (#[trigger] spec_parse_part(
                    raw@[i],
                )) is Some by {
                    assert(Some(all_parts[i]) == spec_parse_part(raw@[i]));
                }
                assert forall|i: int, j: int| 0 <= i < j < raw@.len() implies (
                #[trigger] spec_parse_part(raw@[i])).unwrap().id != (#[trigger] spec_parse_part(
                    raw@[j],
                )).unwrap().id by {
                    assert(Some(all_parts[i]) == spec_parse_part(raw@[i]));
                    assert(Some(all_parts[j]) == spec_parse_part(raw@[j]));
                }
                assert forall|i: int| 0 <= i < raw@.len() implies ((#[trigger] spec_parse_part(
                    raw@[i],
                )).unwrap().parent_id matches Some(p) ==> spec_load_map(raw@).contains_key(p)) by {
                    assert(Some(all_parts[i]) == spec_parse_part(raw@[i]));
                    match all_parts[i].parent_id {
                        None => {},
                        Some(pp) => {
                            assert(parts@.contains_key(pp));
                        },
                    }
                }
            }
            // the assembled store satisfies everything but sortedness
            let m = store.parts_map();
            let f = store.fams_map();
            assert(m == spec_load_map(raw@));
            assert(f.dom() =~= m.dom()) by {
                assert forall|p: i64| #[trigger] f.contains_key(p) <==> m.contains_key(p) by {
                    lemma_load_map_contains(raw@, p);
                    if f.contains_key(p) {
                        let j = choose|j: int| 0 <= j < n && (#[trigger] all_parts[j]).id == p;
                        assert(spec_parse_part(raw@[j]).unwrap().id == p);
                    }
                    if m.contains_key(p) {
                        let j = choose|j: int|
                            0 <= j < raw@.len() && (#[trigger] spec_parse_part(
                                raw@[j],
                            )).unwrap().id == p;
                        assert(all_parts[j].id == p);
                    }
                }
            }
            assert forall|id2: i64| #[trigger] m.contains_key(id2) implies m[id2].id == id2
                && match m[id2].parent_id {
                None => store.projects_seq().contains(id2),
                Some(p) => m.contains_key(p) && f[p].contains(id2),
            } by {
                lemma_load_map_contains(raw@, id2);
                let j = choose|j: int|
                    0 <= j < raw@.len() && (#[trigger] spec_parse_part(raw@[j])).unwrap().id
                        == id2;
                assert(all_parts[j].id == id2);
                assert(m[id2] == all_parts[j]);
                assert(spec_parse_part(raw@[j]).unwrap().id == id2);
                match all_parts[j].parent_id {
                    None => {},
                    Some(pp) => {},
                }
            }
            assert forall|k2: int| 0 <= k2 < store.projects_seq().len() implies m.contains_key(
                #[trigger] store.projects_seq()[k2],
            ) && m[store.projects_seq()[k2]].parent_id is None by {
                let e = store.projects_seq()[k2];
                assert(store.projects_seq().contains(e));
                let j = choose|j: int|
                    0 <= j < n && #[trigger] all_parts[j].id == e && all_parts[j].parent_id
                        is None;
                assert(m[e] == all_parts[j]);
            }
            assert forall|p: i64| #[trigger] f.contains_key(p) implies store.child_list_wf(p) by {
                assert forall|k2: int| 0 <= k2 < f[p].len() implies m.contains_key(
                    #[trigger] f[p][k2],
                ) && m[f[p][k2]].parent_id == Some(p) by {
                    let x = f[p][k2];
                    assert(f[p].contains(x));
                    let j = choose|j: int|
                        0 <= j < n && #[trigger] all_parts[j].id == x && all_parts[j].parent_id
                            == Some(p);
                    assert(m[x] == all_parts[j]);
                }
            }
            assert(store.ids_seq().to_set() =~= m.dom()) by {
                assert forall|x: i64| #[trigger] store.ids_seq().to_set().contains(x)
                    <==> m.dom().contains(x) by {
                    assert(store.ids_seq().contains(x) == store.ids_seq().to_set().contains(x));
                    lemma_load_map_contains(raw@, x);
                    if store.ids_seq().contains(x) {
                        let w = choose|w: int|
                            0 <= w < store.ids_seq().len() && #[trigger] store.ids_seq()[w] == x;
                        assert(all_parts[w].id == x);
                        assert(spec_parse_part(raw@[w]).unwrap().id == x);
                    }
                    if m.dom().contains(x) {
                        let j = choose|j: int|
                            0 <= j < raw@.len() && (#[trigger] spec_parse_part(
                                raw@[j],
                            )).unwrap().id == x;
                        assert(store.ids_seq()[j] == all_parts[j].id);
                    }
                }
            }
            // the sorting pass needs every listed id to be a known part
            assert forall|k2: int|
                0 <= k2 < store.projects_seq().len() implies store.parts_map().contains_key(
                #[trigger] store.projects_seq()[k2],
            ) by {}
            assert forall|p: i64| #[trigger] store.fams_map().contains_key(p) implies
                store.ids_seq().contains(p) by {
                assert(m.dom().contains(p));
                assert(store.ids_seq().to_set().contains(p));
            }
        }
        let ghost pre = store;
        store.sort_all();
        proof {
            let m = store.parts_map();
            assert(m == pre.parts_map());
            assert forall|p: i64| #[trigger] store.fams_map().contains_key(p) implies
                store.child_list_wf(p) by {
                lemma_same_multiset_same_elements(store.fams_map()[p], pre.fams_map()[p]);
                assert(pre.child_list_wf(p));
                assert forall|k2: int| 0 <= k2 < store.fams_map()[p].len() implies m.contains_key(
                    #[trigger] store.fams_map()[p][k2],
                ) && m[store.fams_map()[p][k2]].parent_id == Some(p) by {
                    assert(store.fams_map()[p].contains(store.fams_map()[p][k2]));
                    assert(store.fams_map()[p].to_set().contains(store.fams_map()[p][k2]));
                    assert(pre.fams_map()[p].contains(store.fams_map()[p][k2]));
                }
            }
            lemma_same_multiset_same_elements(store.projects_seq(), pre.projects_seq());
            assert forall|k2: int| 0 <= k2 < store.projects_seq().len() implies m.contains_key(
                #[trigger] store.projects_seq()[k2],
            ) && m[store.projects_seq()[k2]].parent_id is None by {
                assert(store.projects_seq().contains(store.projects_seq()[k2]));
                assert(store.projects_seq().to_set().contains(store.projects_seq()[k2]));
                assert(pre.projects_seq().contains(store.projects_seq()[k2]));
            }
            assert forall|id2: i64| #[trigger] m.contains_key(id2) implies match m[id2].parent_id {
                None => store.projects_seq().contains(id2),
                Some(p) => m.contains_key(p) && store.fams_map()[p].contains(id2),
            } by {
                match m[id2].parent_id {
                    None => {
                        assert(pre.projects_seq().contains(id2));
                        assert(pre.projects_seq().to_set().contains(id2));
                        assert(store.projects_seq().contains(id2));
                    },
                    Some(p) => {
                        assert(pre.fams_map()[p].contains(id2));
                        lemma_same_multiset_same_elements(store.fams_map()[p], pre.fams_map()[p]);
                        assert(pre.fams_map()[p].to_set().contains(id2));
                        assert(store.fams_map()[p].contains(id2));
                    },
                }
            }
            assert(store.inv());
            assert(store.filter_consistent());
        }
        Some(store)
    }


    /// The root ids the active filter leaves visible, in sibling order.
    pub fn visible_projects(&self) -> (r: Vec<i64>)
        ensures
            r@ == self.projects_seq().filter(|c: i64| self.spec_visible(c)),
    {
        self.visible_of(&self.projects)
    }

    /// The children of one entity that the active filter leaves visible,
    /// in sibling order.
    pub fn visible_children(&self, id: i64) -> (r: Option<Vec<i64>>)
        ensures
            match r {
                Some(l) => self.fams_map().contains_key(id) && l@ == self.fams_map()[id].filter(
                    |c: i64| self.spec_visible(c),
                ),
                None => !self.fams_map().contains_key(id),
            },
    {
        match self.fams.get(&id) {
            Some(children) => Some(self.visible_of(children)),
            None => None,
        }
    }

    /// Keeps the visible entries of one sibling list, in order.
    fn visible_of(&self, l: &Vec<i64>) -> (r: Vec<i64>)
        ensures
            r@ == l@.filter(|c: i64| self.spec_visible(c)),
    {
        let mut r: Vec<i64> = Vec::new();
        let n = l.len();
        let mut k: usize = 0;
        proof {
            reveal(Seq::filter);
            assert(l@.take(0).filter(|c: i64| self.spec_visible(c)) =~= Seq::<i64>::empty());
        }
        while k < n
            invariant
                k <= n,
                n == l@.len(),
                r@ == l@.take(k as int).filter(|c: i64| self.spec_visible(c)),
            decreases n - k,
        {
            let c = l[k];
            let keep = self.id_not_filtered(c);
            proof {
                reveal(Seq::filter);
                assert(l@.take(k + 1).drop_last() =~= l@.take(k as int));
                assert(l@.take(k + 1).last() == c);
            }
            if keep {
                r.push(c);
            }
            k = k + 1;
        }
        proof {
            assert(l@.take(n as int) =~= l@);
        }
        r
    }

    /// Removes an entity together with its entire subtree: every removed id
    /// leaves the entity map, the children index, the flat id list and the
    /// exclusion set, and the deleted entity leaves the sibling list it sat
    /// in. Deleting an unknown id changes nothing.
    #[verifier::rlimit(100)]
    pub fn delete_part(&mut self, id: i64)
        requires
            old(self).inv(),
        ensures
            final(self).inv(),
            old(self).filter_consistent() ==> final(self).filter_consistent(),
            forall|y: i64|
                #[trigger] final(self).parts_map().contains_key(y) <==> (old(
                    self,
                ).parts_map().contains_key(y) && !in_subtree(old(self).parts_map(), id, y)),
            forall|y: i64|
                #[trigger] final(self).parts_map().contains_key(y) ==> final(self).parts_map()[y]
                    == old(self).parts_map()[y],
            forall|p: i64|
                #[trigger] final(self).fams_map().contains_key(p) ==> final(self).fams_map()[p]
                    == old(self).fams_map()[p].remove_value(id),
            final(self).projects_seq() == old(self).projects_seq().remove_value(id),
            final(self).excluded() == (match old(self).excluded() {
                None => None::<Set<i64>>,
                Some(s) => Some(s.difference(subtree_ids(old(self).parts_map(), id))),
            }),
            final(self).sort_method_spec() == old(self).sort_method_spec(),
            final(self).filter_method_spec() == old(self).filter_method_spec(),
    {
        let ghost m0 = old(self).parts_map();
        let ghost f0 = old(self).fams_map();
        let ghost meth = old(self).sort_method_spec();
        let ghost sub = subtree_ids(m0, id);
        let parent = match self.parts.get(&id) {
            None => {
                proof {
                    assert forall|y: i64| !(#[trigger] in_subtree(m0, id, y)) by {
                        if in_subtree(m0, id, y) {
                            lemma_subtree_in_dom(m0, id, y);
                        }
                    }
                    assert forall|p: i64| #[trigger] f0.contains_key(p) implies f0[
                        p
                    ].remove_value(id) == f0[p] by {
                        assert(old(self).child_list_wf(p));
                        assert(!f0[p].contains(id)) by {
                            if f0[p].contains(id) {
                                let w = choose|w: int|
                                    0 <= w < f0[p].len() && #[trigger] f0[p][w] == id;
                                assert(m0.contains_key(id));
                            }
                        }
                        lemma_remove_value_props(f0[p], id);
                    }
                    assert(!old(self).projects_seq().contains(id)) by {
                        if old(self).projects_seq().contains(id) {
                            let w = choose|w: int|
                                0 <= w < old(self).projects_seq().len() && #[trigger] old(
                                    self,
                                ).projects_seq()[w] == id;
                            assert(m0.contains_key(id));
                        }
                    }
                    lemma_remove_value_props(old(self).projects_seq(), id);
                    match old(self).excluded() {
                        None => {},
                        Some(s0) => {
                            assert(s0.difference(sub) =~= s0);
                        },
                    }
                }
                return;
            },
            Some(p) => p.parent_id,
        };
        proof {
            lemma_subtree_self(m0, id);
        }
        // unlink the subtree root from the sibling list it sits in
        match parent {
            Some(pid) => {
                let mut children = match self.fams.remove(&pid) {
                    Some(c) => c,
                    None => unreached(),
                };
                proof {
                    assert(children@ == f0[pid]);
                }
                remove_value_exec(&mut children, id);
                self.fams.insert(pid, children);
            },
            None => {
                remove_value_exec(&mut self.projects, id);
            },
        }
        let ghost f1 = self.fams_map();
        proof {
            if parent is Some {
                assert(!old(self).projects_seq().contains(id)) by {
                    if old(self).projects_seq().contains(id) {
                        let w = choose|w: int|
                            0 <= w < old(self).projects_seq().len() && #[trigger] old(
                                self,
                            ).projects_seq()[w] == id;
                        assert(m0[id].parent_id is None);
                    }
                }
                old(self).projects_seq().index_of_first_ensures(id);
                assert(self.projects@ == old(self).projects_seq().remove_value(id));
            }
            // every children list now reads as it stood before, less the id
            assert forall|p: i64| #[trigger] f1.contains_key(p) implies f1[p] == f0[
                p
            ].remove_value(id) && f0.contains_key(p) by {
                assert(old(self).child_list_wf(p));
                if parent != Some(p) {
                    assert(!f0[p].contains(id)) by {
                        if f0[p].contains(id) {
                            let w = choose|w: int| 0 <= w < f0[p].len() && #[trigger] f0[p][w]
                                == id;
                            assert(m0[id].parent_id == Some(p));
                        }
                    }
                    lemma_remove_value_props(f0[p], id);
                    assert(f1[p] == f0[p]);
                }
            }
            assert(m0.contains_key(id));
            assert(f0.contains_key(id));
            assert(f1.contains_key(id));
            assert(f1[id] == f0[id].remove_value(id));
        }
        // remove the subtree with an explicit worklist
        self.parts.remove(&id);
        let mut stack = match self.fams.remove(&id) {
            Some(c) => c,
            None => unreached(),
        };
        match &mut self.filtered_ids {
            Some(fs) => {
                fs.remove(&id);
            },
            None => {},
        }
        remove_value_exec(&mut self.ids, id);
        let ghost mut processed: Set<i64> = Set::empty().insert(id);
        proof {
            // entry facts for the worklist loop
            assert(stack@ == f1[id]);
            assert(old(self).child_list_wf(id));
            lemma_remove_value_props(f0[id], id);
            lemma_remove_value_props(old(self).ids_seq(), id);
            assert forall|p: i64| #[trigger] self.fams_map().contains_key(p) implies
                f0.contains_key(p) && !processed.contains(p) && self.fams_map()[p] == f0[
                p
            ].remove_value(id) by {
                assert(p != id);
                assert(f1.contains_key(p));
                assert(f1[p] == f0[p].remove_value(id));
                assert(self.fams_map()[p] == f1[p]);
            }
            assert forall|p: i64| f0.contains_key(p) && !processed.contains(p) implies
                #[trigger] self.fams_map().contains_key(p) by {
                assert(f1.contains_key(p));
            }
            assert forall|k: int| 0 <= k < stack@.len() implies {
                &&& self.parts@.contains_key(#[trigger] stack@[k])
                &&& in_subtree(m0, id, stack@[k])
                &&& m0[stack@[k]].parent_id is Some
                &&& processed.contains(m0[stack@[k]].parent_id.unwrap())
            } by {
                let c = stack@[k];
                assert(f0[id].remove_value(id).contains(c));
                assert(f0[id].contains(c));
                let w = choose|w: int| 0 <= w < f0[id].len() && #[trigger] f0[id][w] == c;
                assert(m0.contains_key(c) && m0[c].parent_id == Some(id));
                assert(c != id);
                lemma_subtree_step(m0, id, id, c);
            }
            assert(self.ids@.to_set() =~= self.parts@.dom()) by {
                assert forall|y: i64| #[trigger] self.ids@.to_set().contains(y)
                    <==> self.parts@.dom().contains(y) by {
                    assert(self.ids@.contains(y) == self.ids@.to_set().contains(y));
                    if y != id {
                        assert(self.ids@.contains(y) == old(self).ids_seq().contains(y));
                        assert(old(self).ids_seq().contains(y) == old(
                            self,
                        ).ids_seq().to_set().contains(y));
                    }
                }
            }
            match old(self).excluded() {
                None => {},
                Some(s0) => {
                    assert(s0.remove(id) =~= s0.difference(processed));
                },
            }
            // everything still to delete reaches the worklist through a
            // child of the removed root
            assert forall|y: i64|
                m0.contains_key(y) && #[trigger] in_subtree(m0, id, y) && !processed.contains(y)
                    implies exists|r: Seq<i64>|
                    {
                        &&& #[trigger] parent_path(m0, r)
                        &&& stack@.contains(r[0])
                        &&& r.last() == y
                        &&& forall|k: int|
                            0 <= k < r.len() ==> !processed.contains(#[trigger] r[k])
                    } by {
                let q = choose|q: Seq<i64>| #[trigger] parent_path(m0, q) && q[0] == id
                    && q.last() == y;
                assert(q.contains(q[0]));
                lemma_path_past_node(m0, q, Set::empty(), id);
                let r = choose|r: Seq<i64>|
                    {
                        &&& #[trigger] parent_path(m0, r)
                        &&& m0[r[0]].parent_id == Some(id)
                        &&& r.last() == q.last()
                        &&& forall|k: int|
                            0 <= k < r.len() ==> !Set::empty().insert(id).contains(
                                #[trigger] r[k],
                            )
                    };
                assert(f0[id].contains(r[0]));
                assert(r[0] != id) by {
                    assert(!Set::empty().insert(id).contains(r[0]));
                }
                assert(stack@.contains(r[0]));
                assert forall|k: int| 0 <= k < r.len() implies !processed.contains(
                    #[trigger] r[k],
                ) by {
                    assert(!Set::empty().insert(id).contains(r[k]));
                }
                assert(parent_path(m0, r) && stack@.contains(r[0]) && r.last() == y);
            }
        }
        proof {
            assert forall|p: i64, k: int|
                f0.contains_key(p) && 0 <= k < f0[p].len() implies m0.contains_key(
                #[trigger] f0[p][k],
            ) && m0[f0[p][k]].parent_id == Some(p) by {
                assert(old(self).child_list_wf(p));
            }
            assert forall|p: i64| #[trigger] f0.contains_key(p) implies f0[p].no_duplicates() by {
                assert(old(self).child_list_wf(p));
            }
        }
        while stack.len() > 0
            invariant
                m0 == old(self).parts_map(),
                f0 == old(self).fams_map(),
                f0.dom() == m0.dom(),
                forall|p: i64, k: int|
                    f0.contains_key(p) && 0 <= k < f0[p].len() ==> m0.contains_key(
                        #[trigger] f0[p][k],
                    ) && m0[f0[p][k]].parent_id == Some(p),
                forall|p: i64| #[trigger] f0.contains_key(p) ==> f0[p].no_duplicates(),
                forall|y: i64|
                    #[trigger] m0.contains_key(y) ==> (m0[y].parent_id matches Some(p)
                        ==> m0.contains_key(p) && f0[p].contains(y)),
                self.sort_method == old(self).sort_method_spec(),
                self.filter_method == old(self).filter_method_spec(),
                processed.contains(id),
                processed.subset_of(subtree_ids(m0, id)),
                forall|y: i64|
                    #[trigger] processed.contains(y) ==> y == id || (m0.contains_key(y)
                        && m0[y].parent_id is Some && processed.contains(
                        m0[y].parent_id.unwrap(),
                    )),
                forall|y: i64|
                    #[trigger] self.parts@.contains_key(y) ==> m0.contains_key(y)
                        && !processed.contains(y) && self.parts@[y] == m0[y],
                forall|y: i64|
                    m0.contains_key(y) && !processed.contains(y)
                        ==> #[trigger] self.parts@.contains_key(y),
                forall|p: i64|
                    #[trigger] self.fams_map().contains_key(p) ==> f0.contains_key(p)
                        && !processed.contains(p) && self.fams_map()[p] == f0[p].remove_value(id),
                forall|p: i64|
                    f0.contains_key(p) && !processed.contains(p)
                        ==> #[trigger] self.fams_map().contains_key(p),
                self.projects@ == old(self).projects_seq().remove_value(id),
                self.excluded() == (match old(self).excluded() {
                    None => None::<Set<i64>>,
                    Some(s) => Some(s.difference(processed)),
                }),
                self.ids@.no_duplicates(),
                self.ids@.to_set() == self.parts@.dom(),
                stack@.no_duplicates(),
                forall|k: int|
                    0 <= k < stack@.len() ==> {
                        &&& self.parts@.contains_key(#[trigger] stack@[k])
                        &&& in_subtree(m0, id, stack@[k])
                        &&& m0[stack@[k]].parent_id is Some
                        &&& processed.contains(m0[stack@[k]].parent_id.unwrap())
                    },
                forall|y: i64|
                    m0.contains_key(y) && #[trigger] in_subtree(m0, id, y)
                        && !processed.contains(y) ==> exists|r: Seq<i64>|
                        {
                            &&& #[trigger] parent_path(m0, r)
                            &&& stack@.contains(r[0])
                            &&& r.last() == y
                            &&& forall|k: int|
                                0 <= k < r.len() ==> !processed.contains(#[trigger] r[k])
                        },
            decreases self.parts@.dom().len(),
        {
            let ghost stack_old = stack@;
            let ghost processed_old = processed;
            let ghost parts_prev = self.parts@;
            let ghost fams_prev = self.fams_map();
            let ghost ids_prev = self.ids@;
            let s = match stack.pop() {
                Some(v) => v,
                None => unreached(),
            };
            proof {
                assert(stack_old[stack_old.len() - 1] == s);
                assert(stack_old.contains(s));
                assert(parts_prev.contains_key(s));
                assert(fams_prev.contains_key(s));
                assert(fams_prev[s] == f0[s].remove_value(id));
                assert(!processed_old.contains(s));
            }
            let cs = match self.fams.remove(&s) {
                Some(c) => c,
                None => unreached(),
            };
            let ghost cs_seq = cs@;
            proof {
                assert(cs_seq == fams_prev[s]);
            }
            self.parts.remove(&s);
            let mut cs2 = cs;
            stack.append(&mut cs2);
            match &mut self.filtered_ids {
                Some(fs) => {
                    fs.remove(&s);
                },
                None => {},
            }
            remove_value_exec(&mut self.ids, s);
            proof {
                processed = processed_old.insert(s);
                let dropped = stack_old.drop_last();
                assert(stack@ == dropped + cs_seq);
                assert(f0.contains_key(s));
                assert(f0[s].no_duplicates());
                lemma_remove_value_props(f0[s], id);
                lemma_remove_value_props(ids_prev, s);
                // facts about the freshly pushed children
                assert forall|k: int| 0 <= k < cs_seq.len() implies {
                    &&& m0.contains_key(#[trigger] cs_seq[k])
                    &&& m0[cs_seq[k]].parent_id == Some(s)
                    &&& cs_seq[k] != id
                    &&& !processed.contains(cs_seq[k])
                    &&& self.parts@.contains_key(cs_seq[k])
                    &&& in_subtree(m0, id, cs_seq[k])
                } by {
                    let c = cs_seq[k];
                    assert(cs_seq.contains(c));
                    assert(f0[s].contains(c));
                    let w = choose|w: int| 0 <= w < f0[s].len() && #[trigger] f0[s][w] == c;
                    assert(m0.contains_key(c) && m0[c].parent_id == Some(s));
                    assert(!cs_seq.contains(id));
                    assert(c != s) by {
                        if c == s {
                            assert(m0[s].parent_id == Some(s));
                            assert(in_subtree(m0, id, s));
                            assert(processed_old.contains(m0[s].parent_id.unwrap()));
                        }
                    }
                    assert(!processed_old.contains(c)) by {
                        if processed_old.contains(c) {
                            assert(c == id || processed_old.contains(m0[c].parent_id.unwrap()));
                        }
                    }
                    assert(parts_prev.contains_key(c));
                    lemma_subtree_step(m0, id, s, c);
                }
                // the worklist stays duplicate-free
                assert(dropped.no_duplicates()) by {
                    assert forall|i: int, j: int|
                        0 <= i < dropped.len() && 0 <= j < dropped.len() && i != j implies
                        dropped[i] != dropped[j] by {
                        assert(dropped[i] == stack_old[i] && dropped[j] == stack_old[j]);
                    }
                }
                assert forall|x: i64| #[trigger] dropped.contains(x) implies !cs_seq.contains(
                    x,
                ) by {
                    let w = choose|w: int| 0 <= w < dropped.len() && #[trigger] dropped[w] == x;
                    assert(stack_old[w] == x);
                    if cs_seq.contains(x) {
                        let w2 = choose|w2: int|
                            0 <= w2 < cs_seq.len() && #[trigger] cs_seq[w2] == x;
                        assert(m0[x].parent_id == Some(s));
                        assert(processed_old.contains(m0[x].parent_id.unwrap()));
                    }
                }
                lemma_concat_no_duplicates(dropped, cs_seq);
                // the flat id list still mirrors the entity map
                assert(self.ids@.to_set() =~= self.parts@.dom()) by {
                    assert forall|y: i64| #[trigger] self.ids@.to_set().contains(y)
                        <==> self.parts@.dom().contains(y) by {
                        assert(self.ids@.contains(y) == self.ids@.to_set().contains(y));
                        assert(ids_prev.contains(y) == ids_prev.to_set().contains(y));
                    }
                }
                // the exclusion set lost exactly the processed ids
                match old(self).excluded() {
                    None => {},
                    Some(s0) => {
                        assert(s0.difference(processed_old).remove(s) =~= s0.difference(
                            processed,
                        ));
                    },
                }
                // the children index tracks the entity map
                assert forall|p: i64| #[trigger] self.fams_map().contains_key(p) implies
                    f0.contains_key(p) && !processed.contains(p) && self.fams_map()[p] == f0[
                    p
                ].remove_value(id) by {
                    assert(fams_prev.contains_key(p));
                    assert(self.fams_map()[p] == fams_prev[p]);
                }
                assert forall|p: i64| f0.contains_key(p) && !processed.contains(p) implies
                    #[trigger] self.fams_map().contains_key(p) by {
                    assert(fams_prev.contains_key(p));
                    assert(p != s);
                }
                // worklist elements are still pending subtree nodes
                assert forall|k: int| 0 <= k < stack@.len() implies {
                    &&& self.parts@.contains_key(#[trigger] stack@[k])
                    &&& in_subtree(m0, id, stack@[k])
                    &&& m0[stack@[k]].parent_id is Some
                    &&& processed.contains(m0[stack@[k]].parent_id.unwrap())
                } by {
                    if k < dropped.len() {
                        assert(stack@[k] == stack_old[k]);
                        assert(stack_old[k] != s) by {
                            assert(stack_old[stack_old.len() - 1] == s);
                        }
                    } else {
                        assert(stack@[k] == cs_seq[k - dropped.len()]);
                    }
                }
                // whatever remains of the subtree is still reachable
                assert forall|c: i64|
                    m0.contains_key(c) && m0[c].parent_id == Some(s) && c != id implies
                    #[trigger] cs_seq.contains(c) by {
                    assert(f0[s].contains(c));
                }
                lemma_coverage_step(m0, id, s, stack_old, stack@, cs_seq, processed_old);
            }
        }
        proof {
            // the worklist is spent: the processed ids are exactly the subtree
            assert forall|y: i64| #[trigger] in_subtree(m0, id, y) implies processed.contains(
                y,
            ) by {
                lemma_subtree_in_dom(m0, id, y);
            }
            assert(processed =~= sub);
            // rebuild the invariant for the surviving store
            let m = self.parts@;
            let f = self.fams_map();
            assert(f.dom() =~= m.dom()) by {
                assert forall|p: i64| #[trigger] f.dom().contains(p) <==> m.dom().contains(p) by {
                    if m.contains_key(p) {
                        assert(m0.contains_key(p) && !processed.contains(p));
                        assert(f0.contains_key(p));
                    }
                    if f.contains_key(p) {
                        assert(m0.contains_key(p));
                    }
                }
            }
            assert forall|id2: i64| #[trigger] m.contains_key(id2) implies match m[id2].parent_id {
                None => self.projects@.contains(id2),
                Some(p) => m.contains_key(p) && f[p].contains(id2),
            } by {
                assert(m[id2] == m0[id2]);
                assert(id2 != id) by {
                    assert(!processed.contains(id2));
                }
                match m0[id2].parent_id {
                    None => {
                        assert(old(self).projects_seq().contains(id2));
                        lemma_remove_value_props(old(self).projects_seq(), id);
                        assert(self.projects@.contains(id2));
                    },
                    Some(p) => {
                        assert(m0.contains_key(p) && f0[p].contains(id2));
                        assert(!in_subtree(m0, id, p)) by {
                            if in_subtree(m0, id, p) {
                                lemma_subtree_step(m0, id, p, id2);
                            }
                        }
                        assert(m.contains_key(p));
                        assert(f.contains_key(p));
                        assert(old(self).child_list_wf(p));
                        lemma_remove_value_props(f0[p], id);
                        assert(f[p].contains(id2));
                    },
                }
            }
            lemma_remove_value_props(old(self).projects_seq(), id);
            assert forall|k: int| 0 <= k < self.projects@.len() implies m.contains_key(
                #[trigger] self.projects@[k],
            ) && m[self.projects@[k]].parent_id is None by {
                let e = self.projects@[k];
                assert(old(self).projects_seq().contains(e));
                let w = choose|w: int|
                    0 <= w < old(self).projects_seq().len() && #[trigger] old(
                        self,
                    ).projects_seq()[w] == e;
                assert(m0.contains_key(e) && m0[e].parent_id is None);
                assert(e != id);
                assert(!in_subtree(m0, id, e)) by {
                    if in_subtree(m0, id, e) {
                        lemma_subtree_parent(m0, id, e);
                    }
                }
                assert(m.contains_key(e));
            }
            assert forall|p: i64| #[trigger] f.contains_key(p) implies self.child_list_wf(p)
                && sorted_by(m, meth, f[p]) by {
                assert(old(self).child_list_wf(p));
                lemma_remove_value_props(f0[p], id);
                assert(f[p] == f0[p].remove_value(id));
                assert forall|k: int| 0 <= k < f[p].len() implies m.contains_key(
                    #[trigger] f[p][k],
                ) && m[f[p][k]].parent_id == Some(p) && m0.contains_key(f[p][k]) && m0[f[p][k]]
                    == m[f[p][k]] by {
                    let e = f[p][k];
                    assert(f0[p].contains(e));
                    let w = choose|w: int| 0 <= w < f0[p].len() && #[trigger] f0[p][w] == e;
                    assert(m0.contains_key(e) && m0[e].parent_id == Some(p));
                    assert(e != id) by {
                        assert(!f[p].contains(id));
                        assert(f[p].contains(e));
                    }
                    assert(!in_subtree(m0, id, e)) by {
                        if in_subtree(m0, id, e) {
                            lemma_subtree_parent(m0, id, e);
                            assert(in_subtree(m0, id, p));
                            assert(processed.contains(p));
                        }
                    }
                    assert(m.contains_key(e));
                }
                crate::order::lemma_sorted_by_remove_value(m0, meth, f0[p], id);
                lemma_sorted_same_parts(m0, m, meth, f[p]);
            }
            crate::order::lemma_sorted_by_remove_value(m0, meth, old(self).projects_seq(), id);
            assert forall|k: int| 0 <= k < self.projects@.len() implies {
                &&& m0.contains_key(#[trigger] self.projects@[k])
                &&& m.contains_key(self.projects@[k])
                &&& m0[self.projects@[k]] == m[self.projects@[k]]
            } by {}
            lemma_sorted_same_parts(m0, m, meth, self.projects@);
            match old(self).excluded() {
                None => {},
                Some(s0) => {
                    assert(self.excluded() == Some(s0.difference(processed)));
                    assert(s0.difference(processed) =~= s0.difference(sub));
                    assert(s0.difference(sub).subset_of(m.dom())) by {
                        assert forall|y: i64| #[trigger] s0.difference(sub).contains(y) implies
                            m.dom().contains(y) by {
                            assert(s0.contains(y));
                            assert(m0.dom().contains(y));
                            assert(!processed.contains(y));
                        }
                    }
                    if old(self).filter_consistent() {
                        assert(s0.difference(sub) =~= Set::new(
                            |y: i64| m.contains_key(y) && !self.filter_method.spec_passes(m[y]),
                        )) by {
                            assert forall|y: i64| #[trigger] s0.difference(sub).contains(y)
                                <==> (m.contains_key(y) && !self.filter_method.spec_passes(
                                m[y],
                            )) by {
                                if m.contains_key(y) {
                                    assert(m[y] == m0[y]);
                                }
                                if s0.difference(sub).contains(y) {
                                    assert(s0.contains(y));
                                    assert(m0.contains_key(y));
                                    assert(!processed.contains(y));
                                }
                            }
                        }
                    }
                },
            }
        }
    }

    /// The active sort policy.
    pub fn sort_method(&self) -> (r: SortMethod)
        ensures
            r == self.sort_method_spec(),
    {
        self.sort_method
    }

    /// The active filter policy.
    pub fn filter_method(&self) -> (r: FilterMethod)
        ensures
            r == self.filter_method_spec(),
    {
        self.filter_method
    }
}

impl Default for PartsMaps {
    /// The empty store: no entities, creation-order sorting, no filter.
    fn default() -> (r: Self)
        ensures
            r.inv(),
            r.filter_consistent(),
            r.parts_map() == Map::<i64, Part>::empty(),
            r.projects_seq() == Seq::<i64>::empty(),
            r.sort_method_spec() is Id,
            r.filter_method_spec().spec_allows_all(),
            r.excluded() is None,
    {
        let store = PartsMaps {
            parts: BTreeMap::new(),
            fams: BTreeMap::new(),
            projects: Vec::new(),
            ids: Vec::new(),
            sort_method: SortMethod::Id,
            filter_method: FilterMethod::default(),
            filtered_ids: None,
        };
        proof {
            assert(store.fams_map().dom() =~= store.parts_map().dom());
            assert(store.ids_seq().to_set() =~= store.parts_map().dom());
        }
        store
    }
}


/// Every entity sits in exactly one sibling list. A root stands in the
/// root list and in no children list; a child stands in its parent's
/// children list and in no other. The list holding it is duplicate-free,
/// so the membership is unique, and it is sorted under the active sort
/// policy.
pub proof fn lemma_unique_sibling_membership(s: PartsMaps, id: i64)
    requires
        s.inv(),
        s.parts_map().contains_key(id),
    ensures
        s.parts_map()[id].parent_id is None ==> {
            &&& s.projects_seq().contains(id)
            &&& s.projects_seq().no_duplicates()
            &&& sorted_by(s.parts_map(), s.sort_method_spec(), s.projects_seq())
            &&& forall|p: i64|
                #[trigger] s.fams_map().contains_key(p) ==> !s.fams_map()[p].contains(id)
        },
        s.parts_map()[id].parent_id matches Some(pp) ==> {
            &&& s.fams_map().contains_key(pp)
            &&& s.fams_map()[pp].contains(id)
            &&& s.fams_map()[pp].no_duplicates()
            &&& sorted_by(s.parts_map(), s.sort_method_spec(), s.fams_map()[pp])
            &&& !s.projects_seq().contains(id)
            &&& forall|p: i64|
                #[trigger] s.fams_map().contains_key(p) && p != pp ==> !s.fams_map()[p].contains(
                    id,
                )
        },
{
    let m = s.parts_map();
    match m[id].parent_id {
        None => {
            assert forall|p: i64| #[trigger] s.fams_map().contains_key(p) implies !s.fams_map()[
                p
            ].contains(id) by {
                assert(s.child_list_wf(p));
                if s.fams_map()[p].contains(id) {
                    let w = choose|w: int|
                        0 <= w < s.fams_map()[p].len() && #[trigger] s.fams_map()[p][w] == id;
                    assert(m[id].parent_id == Some(p));
                }
            }
        },
        Some(pp) => {
            assert(s.fams_map().dom().contains(pp));
            assert(s.child_list_wf(pp));
            assert(!s.projects_seq().contains(id)) by {
                if s.projects_seq().contains(id) {
                    let w = choose|w: int|
                        0 <= w < s.projects_seq().len() && #[trigger] s.projects_seq()[w] == id;
                    assert(m[id].parent_id is None);
                }
            }
            assert forall|p: i64| #[trigger] s.fams_map().contains_key(p) && p != pp implies !s
                .fams_map()[p].contains(id) by {
                assert(s.child_list_wf(p));
                if s.fams_map()[p].contains(id) {
                    let w = choose|w: int|
                        0 <= w < s.fams_map()[p].len() && #[trigger] s.fams_map()[p][w] == id;
                    assert(m[id].parent_id == Some(p));
                }
            }
        },
    }
}

} // verus!
