//! The sort policy: a total order over sibling parts, selectable at
//! runtime, with every variant breaking ties by ascending id, and the
//! verified insertion sort the store applies to sibling id lists.

use vstd::prelude::*;
use std::collections::BTreeMap;
use crate::entity::Part;

verus! {

broadcast use
    vstd::laws_cmp::group_laws_cmp,
    vstd::seq_lib::group_to_multiset_ensures,
    vstd::utf8::char_u32_cast;

/// The case folding of a name, as the sort-by-name key.
pub uninterp spec fn lower_of(s: Seq<char>) -> Seq<char>;

/// Relies on `str::to_lowercase`: the result depends on the characters
/// alone.
#[verifier::external_body]
pub(crate) fn lowercase(s: &str) -> (r: String)
    ensures
        r@ == lower_of(s@),
{
    s.to_lowercase()
}

/// Lexicographic "less than or equal" on character sequences, comparing
/// code points.
pub open spec fn lex_le(a: Seq<char>, b: Seq<char>) -> bool
    decreases a.len(),
{
    if a.len() == 0 {
        true
    } else if b.len() == 0 {
        false
    } else if (a[0] as u32) < (b[0] as u32) {
        true
    } else if (a[0] as u32) > (b[0] as u32) {
        false
    } else {
        lex_le(a.drop_first(), b.drop_first())
    }
}

pub proof fn lemma_lex_le_total(a: Seq<char>, b: Seq<char>)
    ensures
        lex_le(a, b) || lex_le(b, a),
    decreases a.len(),
{
    if a.len() > 0 && b.len() > 0 && a[0] as u32 == b[0] as u32 {
        lemma_lex_le_total(a.drop_first(), b.drop_first());
    }
}

pub proof fn lemma_lex_le_antisym(a: Seq<char>, b: Seq<char>)
    requires
        lex_le(a, b),
        lex_le(b, a),
    ensures
        a == b,
    decreases a.len(),
{
    if a.len() == 0 {
        assert(b.len() == 0);
        assert(a =~= b);
    } else {
        assert(b.len() > 0);
        if (a[0] as u32) < (b[0] as u32) {
            assert(!lex_le(b, a));
        } else if (a[0] as u32) > (b[0] as u32) {
            assert(!lex_le(a, b));
        }
        vstd::utf8::char_u32_cast(a[0], a[0] as u32);
        vstd::utf8::char_u32_cast(b[0], b[0] as u32);
        assert(a[0] == b[0]);
        lemma_lex_le_antisym(a.drop_first(), b.drop_first());
        assert(a.len() == b.len());
        assert forall|i: int| 0 <= i < a.len() implies a[i] == b[i] by {
            if i > 0 {
                assert(a.drop_first()[i - 1] == b.drop_first()[i - 1]);
            }
        }
        assert(a =~= b);
    }
}

pub proof fn lemma_lex_le_trans(a: Seq<char>, b: Seq<char>, c: Seq<char>)
    requires
        lex_le(a, b),
        lex_le(b, c),
    ensures
        lex_le(a, c),
    decreases a.len(),
{
    if a.len() > 0 {
        assert(b.len() > 0);
        assert(c.len() > 0);
        if a[0] as u32 == b[0] as u32 && b[0] as u32 == c[0] as u32 {
            lemma_lex_le_trans(a.drop_first(), b.drop_first(), c.drop_first());
        }
    }
}

/// The sort policy, selecting which key orders sibling lists.
#[derive(Debug, Clone, Copy, PartialEq, Eq, Structural)]
pub enum SortMethod {
    /// Creation order: ascending id.
    Id,
    /// Case-insensitive name, then id.
    Name,
    /// Deadline with absent deadlines last, then id.
    Deadline,
    /// Completion time with uncompleted parts last, then id.
    CompletedAt,
}

impl Default for SortMethod {
    /// Sorting by creation order is the initial policy.
    fn default() -> (r: Self)
        ensures
            r is Id,
    {
        SortMethod::Id
    }
}

/// The integer key of an optional timestamp: an absent timestamp sorts as
/// if it were the maximum possible one.
pub open spec fn opt_ts_key(ts: Option<i64>) -> int {
    match ts {
        Some(t) => t as int,
        None => i64::MAX as int,
    }
}

impl SortMethod {
    /// The order this policy puts on two parts: its key, with ties always
    /// broken by ascending id.
    pub open spec fn part_le(self, a: Part, b: Part) -> bool {
        match self {
            SortMethod::Id => a.id <= b.id,
            SortMethod::Name => {
                let la = lower_of(a.name@);
                let lb = lower_of(b.name@);
                if la == lb {
                    a.id <= b.id
                } else {
                    lex_le(la, lb)
                }
            },
            SortMethod::Deadline => {
                let ka = opt_ts_key(a.deadline);
                let kb = opt_ts_key(b.deadline);
                ka < kb || (ka == kb && a.id <= b.id)
            },
            SortMethod::CompletedAt => {
                let ka = opt_ts_key(a.completed_at);
                let kb = opt_ts_key(b.completed_at);
                ka < kb || (ka == kb && a.id <= b.id)
            },
        }
    }
}

pub proof fn lemma_part_le_total(m: SortMethod, a: Part, b: Part)
    ensures
        m.part_le(a, b) || m.part_le(b, a),
{
    if m is Name {
        lemma_lex_le_total(lower_of(a.name@), lower_of(b.name@));
    }
}

pub proof fn lemma_part_le_trans(m: SortMethod, a: Part, b: Part, c: Part)
    requires
        m.part_le(a, b),
        m.part_le(b, c),
    ensures
        m.part_le(a, c),
{
    if m is Name {
        let la = lower_of(a.name@);
        let lb = lower_of(b.name@);
        let lc = lower_of(c.name@);
        if la != lb && lb != lc {
            lemma_lex_le_trans(la, lb, lc);
            if la == lc {
                lemma_lex_le_antisym(la, lb);
            }
        }
    }
}

/// The order between two sibling ids under the current entity map.
pub open spec fn id_le(m: Map<i64, Part>, method: SortMethod, x: i64, y: i64) -> bool
    recommends
        m.contains_key(x),
        m.contains_key(y),
{
    method.part_le(m[x], m[y])
}

/// Whether a sibling id list is sorted for `method` under the parts in `m`.
pub open spec fn sorted_by(m: Map<i64, Part>, method: SortMethod, ids: Seq<i64>) -> bool {
    forall|i: int, j: int| 0 <= i < j < ids.len() ==> #[trigger] id_le(m, method, ids[i], ids[j])
}

/// Unpacks sortedness at a chosen pair of positions.
pub proof fn lemma_sorted_index(m: Map<i64, Part>, method: SortMethod, ids: Seq<i64>, p: int, q: int)
    requires
        sorted_by(m, method, ids),
        0 <= p < q < ids.len(),
    ensures
        id_le(m, method, ids[p], ids[q]),
{
}

/// Evaluates the order between two sibling ids.
fn le_ids(parts: &BTreeMap<i64, Part>, method: SortMethod, x: i64, y: i64) -> (r: bool)
    requires
        parts@.contains_key(x),
        parts@.contains_key(y),
    ensures
        r == id_le(parts@, method, x, y),
{
    let px = match parts.get(&x) {
        Some(p) => p,
        None => unreached(),
    };
    let py = match parts.get(&y) {
        Some(p) => p,
        None => unreached(),
    };
    match method {
        SortMethod::Id => px.id <= py.id,
        SortMethod::Name => {
            let la = lowercase(px.name.as_str());
            let lb = lowercase(py.name.as_str());
            if la == lb {
                px.id <= py.id
            } else {
                lex_le_exec(la.as_str(), lb.as_str())
            }
        },
        SortMethod::Deadline => {
            let ka = opt_ts_key_exec(&px.deadline);
            let kb = opt_ts_key_exec(&py.deadline);
            ka < kb || (ka == kb && px.id <= py.id)
        },
        SortMethod::CompletedAt => {
            let ka = opt_ts_key_exec(&px.completed_at);
            let kb = opt_ts_key_exec(&py.completed_at);
            ka < kb || (ka == kb && px.id <= py.id)
        },
    }
}

fn opt_ts_key_exec(ts: &Option<i64>) -> (r: i64)
    ensures
        r as int == opt_ts_key(*ts),
{
    match ts {
        Some(t) => *t,
        None => i64::MAX,
    }
}

proof fn lemma_lex_le_skip(a: Seq<char>, b: Seq<char>, i: int)
    requires
        0 <= i <= a.len(),
        i <= b.len(),
        forall|j: int| 0 <= j < i ==> a[j] == b[j],
    ensures
        lex_le(a, b) == lex_le(a.skip(i), b.skip(i)),
    decreases i,
{
    if i > 0 {
        assert(a[0] == b[0]);
        lemma_lex_le_skip(a.drop_first(), b.drop_first(), i - 1);
        assert(a.drop_first().skip(i - 1) =~= a.skip(i));
        assert(b.drop_first().skip(i - 1) =~= b.skip(i));
        assert(a.skip(0) =~= a);
        assert(b.skip(0) =~= b);
    } else {
        assert(a.skip(0) =~= a);
        assert(b.skip(0) =~= b);
    }
}

/// Compares two strings lexicographically by code point.
fn lex_le_exec(a: &str, b: &str) -> (r: bool)
    ensures
        r == lex_le(a@, b@),
{
    let alen = a.unicode_len();
    let blen = b.unicode_len();
    let mut i: usize = 0;
    while i < alen && i < blen
        invariant
            i <= alen,
            i <= blen,
            alen == a@.len(),
            blen == b@.len(),
            forall|j: int| 0 <= j < i ==> a@[j] == b@[j],
        decreases alen - i,
    {
        let ca = a.get_char(i) as u32;
        let cb = b.get_char(i) as u32;
        if ca < cb {
            proof {
                lemma_lex_le_skip(a@, b@, i as int);
            }
            return true;
        }
        if ca > cb {
            proof {
                lemma_lex_le_skip(a@, b@, i as int);
            }
            return false;
        }
        i = i + 1;
    }
    proof {
        lemma_lex_le_skip(a@, b@, i as int);
    }
    alen <= blen
}

impl SortMethod {
    /// Re-sorts one sibling id list in place: the contents are preserved
    /// and come out sorted for this policy under `parts`.
    #[verifier::rlimit(60)]
    pub fn sort(self, parts: &BTreeMap<i64, Part>, ids: &mut Vec<i64>)
        requires
            forall|k: int| 0 <= k < old(ids)@.len() ==> parts@.contains_key(#[trigger] old(ids)@[k]),
        ensures
            final(ids)@.to_multiset() == old(ids)@.to_multiset(),
            sorted_by(parts@, self, final(ids)@),
    {
        let n = ids.len();
        let mut i: usize = 1;
        while i < n
            invariant
                n == 0 || 1 <= i <= n,
                ids@.len() == n,
                ids@.to_multiset() == old(ids)@.to_multiset(),
                forall|k: int| 0 <= k < ids@.len() ==> parts@.contains_key(#[trigger] ids@[k]),
                n == 0 || sorted_by(parts@, self, ids@.take(i as int)),
            decreases n - i,
        {
            let x = ids[i];
            let ghost pre = ids@;
            // Find the first position whose element must come after x.
            let mut k: usize = 0;
            while k < i && le_ids(parts, self, ids[k], x)
                invariant
                    0 <= k <= i < n,
                    ids@ == pre,
                    ids@.len() == n,
                    x == pre[i as int],
                    forall|k2: int| 0 <= k2 < pre.len() ==> parts@.contains_key(#[trigger] pre[k2]),
                    forall|p: int| 0 <= p < k ==> id_le(parts@, self, pre[p], x),
                decreases i - k,
            {
                k = k + 1;
            }
            let ghost ki = k as int;
            let ghost ii = i as int;
            proof {
                if k < i {
                    lemma_part_le_total(self, parts@[pre[ki]], parts@[x]);
                    assert(id_le(parts@, self, x, pre[ki]));
                }
            }
            let moved = ids.remove(i);
            ids.insert(k, moved);
            proof {
                let prefix = pre.remove(ii);
                let post = ids@;
                assert(moved == x);
                assert(post == prefix.insert(ki, x));
                pre.remove_ensures(ii);
                prefix.insert_ensures(ki, x);
                // Contents are preserved: the moved element is put right back.
                assert(pre.contains(x));
                assert(post.to_multiset() =~= pre.to_multiset());
                // Everything in the new list was in the old one.
                assert forall|k2: int| 0 <= k2 < post.len() implies parts@.contains_key(
                    #[trigger] post[k2],
                ) by {
                    assert(post.contains(post[k2]));
                    assert(pre.to_multiset().contains(post[k2]));
                    assert(pre.contains(post[k2]));
                    let w = choose|w: int| 0 <= w < pre.len() && pre[w] == post[k2];
                    assert(parts@.contains_key(pre[w]));
                }
                let tpre = pre.take(ii);
                assert(tpre.len() == ii);
                // The sorted prefix grew by one entry.
                assert forall|p: int, q: int| 0 <= p < q < ii + 1 implies #[trigger] id_le(
                    parts@,
                    self,
                    post[p],
                    post[q],
                ) by {
                    // post[p] is pre[p] below k, x at k, pre[p - 1] above k.
                    if q < ki {
                        lemma_sorted_index(parts@, self, tpre, p, q);
                        assert(tpre[p] == pre[p] && tpre[q] == pre[q]);
                        assert(id_le(parts@, self, pre[p], pre[q]));
                    } else if q == ki {
                        assert(post[q] == x);
                        assert(id_le(parts@, self, pre[p], x));
                    } else {
                        // q > k, so post[q] == pre[q - 1] with k <= q - 1 < i
                        assert(post[q] == pre[q - 1]);
                        if p < ki {
                            if p < q - 1 {
                                lemma_sorted_index(parts@, self, tpre, p, q - 1);
                                assert(tpre[p] == pre[p] && tpre[q - 1] == pre[q - 1]);
                                assert(id_le(parts@, self, pre[p], pre[q - 1]));
                            } else {
                                assert(id_le(parts@, self, pre[p], pre[p]));
                            }
                        } else if p == ki {
                            assert(post[p] == x);
                            assert(id_le(parts@, self, x, pre[ki]));
                            if q - 1 == ki {
                                assert(id_le(parts@, self, x, pre[q - 1]));
                            } else {
                                lemma_sorted_index(parts@, self, tpre, ki, q - 1);
                                assert(tpre[ki] == pre[ki] && tpre[q - 1] == pre[q - 1]);
                                assert(id_le(parts@, self, pre[ki], pre[q - 1]));
                                lemma_part_le_trans(
                                    self,
                                    parts@[x],
                                    parts@[pre[ki]],
                                    parts@[pre[q - 1]],
                                );
                            }
                        } else {
                            assert(post[p] == pre[p - 1]);
                            lemma_sorted_index(parts@, self, tpre, p - 1, q - 1);
                            assert(tpre[p - 1] == pre[p - 1] && tpre[q - 1] == pre[q - 1]);
                            assert(id_le(parts@, self, pre[p - 1], pre[q - 1]));
                        }
                    }
                }
                assert forall|p: int, q: int|
                    0 <= p < q < post.take(ii + 1).len() implies #[trigger] id_le(
                    parts@,
                    self,
                    post.take(ii + 1)[p],
                    post.take(ii + 1)[q],
                ) by {
                    assert(post.take(ii + 1)[p] == post[p]);
                    assert(post.take(ii + 1)[q] == post[q]);
                }
                assert(sorted_by(parts@, self, post.take(ii + 1)));
            }
            i = i + 1;
        }
        proof {
            if n == 0 {
                assert(sorted_by(parts@, self, ids@));
            } else {
                assert(ids@.take(n as int) =~= ids@);
            }
        }
    }
}

/// Sortedness depends only on the parts the list names.
pub proof fn lemma_sorted_same_parts(
    m1: Map<i64, Part>,
    m2: Map<i64, Part>,
    method: SortMethod,
    ids: Seq<i64>,
)
    requires
        sorted_by(m1, method, ids),
        forall|k: int|
            0 <= k < ids.len() ==> {
                &&& m1.contains_key(#[trigger] ids[k])
                &&& m2.contains_key(ids[k])
                &&& m1[ids[k]] == m2[ids[k]]
            },
    ensures
        sorted_by(m2, method, ids),
{
    assert forall|i: int, j: int| 0 <= i < j < ids.len() implies #[trigger] id_le(
        m2,
        method,
        ids[i],
        ids[j],
    ) by {
        lemma_sorted_index(m1, method, ids, i, j);
    }
}

/// Removing one entry keeps a list sorted.
pub proof fn lemma_sorted_by_remove(m: Map<i64, Part>, method: SortMethod, ids: Seq<i64>, i: int)
    requires
        sorted_by(m, method, ids),
        0 <= i < ids.len(),
    ensures
        sorted_by(m, method, ids.remove(i)),
{
    ids.remove_ensures(i);
    let out = ids.remove(i);
    assert forall|p: int, q: int| 0 <= p < q < out.len() implies #[trigger] id_le(
        m,
        method,
        out[p],
        out[q],
    ) by {
        let p2: int = if p < i {
            p
        } else {
            p + 1
        };
        let q2: int = if q < i {
            q
        } else {
            q + 1
        };
        assert(out[p] == ids[p2]);
        assert(out[q] == ids[q2]);
        lemma_sorted_index(m, method, ids, p2, q2);
    }
}

/// Removing the first occurrence of a value keeps a list sorted.
pub proof fn lemma_sorted_by_remove_value(
    m: Map<i64, Part>,
    method: SortMethod,
    ids: Seq<i64>,
    x: i64,
)
    requires
        sorted_by(m, method, ids),
    ensures
        sorted_by(m, method, ids.remove_value(x)),
{
    ids.index_of_first_ensures(x);
    match ids.index_of_first(x) {
        None => {},
        Some(i) => {
            lemma_sorted_by_remove(m, method, ids, i);
        },
    }
}

/// Ties break by ascending id: in a sorted sibling list, when the sort
/// keys of two entries tie (each compares at-most the other), the earlier
/// entry carries the smaller or equal id.
pub proof fn lemma_sorted_ties_ascend_by_id(
    m: Map<i64, Part>,
    method: SortMethod,
    l: Seq<i64>,
    i: int,
    j: int,
)
    requires
        sorted_by(m, method, l),
        0 <= i < j < l.len(),
        method.part_le(m[l[j]], m[l[i]]),
    ensures
        m[l[i]].id <= m[l[j]].id,
{
    lemma_sorted_index(m, method, l, i, j);
    let a = m[l[i]];
    let b = m[l[j]];
    if method is Name {
        let la = lower_of(a.name@);
        let lb = lower_of(b.name@);
        if la != lb {
            lemma_lex_le_antisym(la, lb);
        }
    }
}

/// Two lists with equal contents hold the same set of ids, and one is
/// duplicate-free exactly when the other is.
pub proof fn lemma_same_multiset_same_elements(a: Seq<i64>, b: Seq<i64>)
    requires
        a.to_multiset() == b.to_multiset(),
    ensures
        a.to_set() == b.to_set(),
        a.no_duplicates() == b.no_duplicates(),
{
    assert forall|x: i64| a.to_set().contains(x) <==> b.to_set().contains(x) by {
        assert(a.contains(x) <==> a.to_multiset().contains(x));
        assert(b.contains(x) <==> b.to_multiset().contains(x));
    }
    assert(a.to_set() =~= b.to_set());
    if a.no_duplicates() {
        a.lemma_multiset_has_no_duplicates();
        b.lemma_multiset_has_no_duplicates_conv();
    }
    if b.no_duplicates() {
        b.lemma_multiset_has_no_duplicates();
        a.lemma_multiset_has_no_duplicates_conv();
    }
}

} // verus!
