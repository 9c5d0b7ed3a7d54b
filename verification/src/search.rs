//! The merge step of the two-stage search dispatcher: partial hits
//! coming back from the leaves are merged into one deterministic order
//! under the documented tie-break, truncated and sliced to the
//! requested window.

use vstd::prelude::*;

use vstd::relations::sorted_by;
use vstd::multiset::Multiset;
use vstd::seq_lib::lemma_multiset_commutative;

use crate::ErrorKind;

verus! {

broadcast use vstd::std_specs::vec::group_vec_axioms;

/// Strict lexicographic order on character sequences.
pub open spec fn lex_lt_chars(a: Seq<char>, b: Seq<char>) -> bool
    decreases a.len(),
{
    if b.len() == 0 {
        false
    } else if a.len() == 0 {
        true
    } else if a[0] != b[0] {
        a[0] < b[0]
    } else {
        lex_lt_chars(a.drop_first(), b.drop_first())
    }
}

/// The lexicographic order is connex: two sequences compare one way,
/// the other, or are equal.
pub proof fn lemma_lex_connex(a: Seq<char>, b: Seq<char>)
    ensures
        lex_lt_chars(a, b) || lex_lt_chars(b, a) || a == b,
    decreases a.len(),
{
    if b.len() == 0 {
        if a.len() == 0 {
            assert(a =~= b);
        }
    } else if a.len() == 0 {
    } else if a[0] != b[0] {
    } else {
        lemma_lex_connex(a.drop_first(), b.drop_first());
        if a.drop_first() == b.drop_first() {
            assert(a.drop_first().len() == a.len() - 1);
            assert(b.drop_first().len() == b.len() - 1);
            assert(a.len() == b.len());
            assert forall|q: int| 0 <= q < a.len() implies a[q] == b[q] by {
                if q > 0 {
                    assert(a.drop_first()[q - 1] == b.drop_first()[q - 1]);
                    assert(a.drop_first()[q - 1] == a[q]);
                    assert(b.drop_first()[q - 1] == b[q]);
                }
            }
            assert(a =~= b);
        }
    }
}

/// The lexicographic order is asymmetric.
pub proof fn lemma_lex_asym(a: Seq<char>, b: Seq<char>)
    requires
        lex_lt_chars(a, b),
    ensures
        !lex_lt_chars(b, a),
        a != b,
    decreases a.len(),
{
    if a.len() == 0 {
    } else if a[0] != b[0] {
    } else {
        lemma_lex_asym(a.drop_first(), b.drop_first());
        assert(a != b) by {
            if a == b {
                assert(a.drop_first() =~= b.drop_first());
            }
        }
    }
}

/// The lexicographic order is transitive.
pub proof fn lemma_lex_trans(a: Seq<char>, b: Seq<char>, c: Seq<char>)
    requires
        lex_lt_chars(a, b),
        lex_lt_chars(b, c),
    ensures
        lex_lt_chars(a, c),
    decreases a.len(),
{
    if a.len() == 0 {
    } else {
        if a[0] != b[0] {
            if b[0] != c[0] {
            } else {
            }
        } else {
            if b[0] != c[0] {
            } else {
                lemma_lex_trans(a.drop_first(), b.drop_first(), c.drop_first());
            }
        }
    }
}

/// A hit identifier produced by a leaf before the document content is
/// fetched.
#[derive(Debug)]
pub struct PartialHit {
    pub sort_value: u64,
    pub split_id: String,
    pub segment_ord: u32,
    pub doc_id: u32,
}

/// Mathematical abstraction of a partial hit.
pub struct PartialHitView {
    pub sort_value: u64,
    pub split_id: Seq<char>,
    pub segment_ord: u32,
    pub doc_id: u32,
}

impl View for PartialHit {
    type V = PartialHitView;

    open spec fn view(&self) -> PartialHitView {
        PartialHitView {
            sort_value: self.sort_value,
            split_id: self.split_id@,
            segment_ord: self.segment_ord,
            doc_id: self.doc_id,
        }
    }
}

impl Clone for PartialHit {
    fn clone(&self) -> (r: PartialHit)
        ensures
            r@ == self@,
    {
        PartialHit {
            sort_value: self.sort_value,
            split_id: self.split_id.clone(),
            segment_ord: self.segment_ord,
            doc_id: self.doc_id,
        }
    }
}

/// The abstractions of a list of partial hits.
pub open spec fn hit_views(s: Seq<PartialHit>) -> Seq<PartialHitView> {
    s.map_values(|h: PartialHit| h@)
}

/// The documented tie-break: descending sort value, then ascending
/// split id, then ascending segment, then ascending doc id.
pub open spec fn hit_le(a: PartialHitView, b: PartialHitView) -> bool {
    if a.sort_value != b.sort_value {
        a.sort_value > b.sort_value
    } else if a.split_id != b.split_id {
        lex_lt_chars(a.split_id, b.split_id)
    } else if a.segment_ord != b.segment_ord {
        a.segment_ord < b.segment_ord
    } else {
        a.doc_id <= b.doc_id
    }
}

/// The tie-break relates any two hits.
pub proof fn lemma_hit_le_total(a: PartialHitView, b: PartialHitView)
    ensures
        hit_le(a, b) || hit_le(b, a),
{
    lemma_lex_connex(a.split_id, b.split_id);
}

/// The tie-break is transitive.
pub proof fn lemma_hit_le_trans(a: PartialHitView, b: PartialHitView, c: PartialHitView)
    requires
        hit_le(a, b),
        hit_le(b, c),
    ensures
        hit_le(a, c),
{
    if a.sort_value == b.sort_value && b.sort_value == c.sort_value {
        if a.split_id != b.split_id && b.split_id != c.split_id {
            lemma_lex_trans(a.split_id, b.split_id, c.split_id);
            lemma_lex_asym(a.split_id, b.split_id);
            lemma_lex_asym(b.split_id, c.split_id);
            if a.split_id == c.split_id {
                lemma_lex_asym(a.split_id, b.split_id);
            }
        }
    }
}

/// Compares two strings in lexicographic order of their characters.
pub fn str_lt(a: &String, b: &String) -> (r: bool)
    ensures
        r == lex_lt_chars(a@, b@),
{
    let an = a.as_str().unicode_len();
    let bn = b.as_str().unicode_len();
    let mut i: usize = 0;
    proof {
        assert(a@.skip(0) =~= a@);
        assert(b@.skip(0) =~= b@);
    }
    loop
        invariant
            i <= an,
            i <= bn,
            an == a@.len(),
            bn == b@.len(),
            lex_lt_chars(a@, b@) == lex_lt_chars(a@.skip(i as int), b@.skip(i as int)),
        decreases an - i,
    {
        if i >= bn {
            assert(b@.skip(i as int).len() == 0);
            return false;
        }
        if i >= an {
            assert(a@.skip(i as int).len() == 0 && b@.skip(i as int).len() > 0);
            return true;
        }
        let ca = a.as_str().get_char(i);
        let cb = b.as_str().get_char(i);
        proof {
            assert(a@.skip(i as int)[0] == a@[i as int]);
            assert(b@.skip(i as int)[0] == b@[i as int]);
        }
        if ca != cb {
            return ca < cb;
        }
        proof {
            assert(a@.skip(i as int).drop_first() =~= a@.skip(i + 1));
            assert(b@.skip(i as int).drop_first() =~= b@.skip(i + 1));
        }
        i = i + 1;
    }
}

/// Compares two hits under the documented tie-break.
pub fn hit_le_exec(a: &PartialHit, b: &PartialHit) -> (r: bool)
    ensures
        r == hit_le(a@, b@),
{
    if a.sort_value != b.sort_value {
        return a.sort_value > b.sort_value;
    }
    if !(a.split_id == b.split_id) {
        return str_lt(&a.split_id, &b.split_id);
    }
    if a.segment_ord != b.segment_ord {
        return a.segment_ord < b.segment_ord;
    }
    a.doc_id <= b.doc_id
}

/// The sorted sequence with one hit added, keeping the order: the new
/// hit goes after every hit that precedes or ties with it.
pub open spec fn insert_sorted(x: PartialHitView, s: Seq<PartialHitView>) -> Seq<PartialHitView>
    decreases s.len(),
{
    if s.len() > 0 && hit_le(s[0], x) {
        seq![s[0]] + insert_sorted(x, s.drop_first())
    } else {
        seq![x] + s
    }
}

/// The merge order of a list of hits: every hit inserted in turn.
pub open spec fn merge_sort_hits(s: Seq<PartialHitView>) -> Seq<PartialHitView>
    decreases s.len(),
{
    if s.len() == 0 {
        Seq::empty()
    } else {
        insert_sorted(s.last(), merge_sort_hits(s.drop_last()))
    }
}

/// Inserting into a sorted sequence keeps it sorted, adds the hit, and
/// grows the length by one.
pub proof fn lemma_singleton_multiset(x: PartialHitView)
    ensures
        seq![x].to_multiset() =~= Multiset::<PartialHitView>::empty().insert(x),
{
    broadcast use vstd::seq_lib::group_to_multiset_ensures;
    broadcast use vstd::multiset::group_multiset_axioms;

    let e = Seq::<PartialHitView>::empty();
    assert(e.to_multiset() =~= Multiset::<PartialHitView>::empty()) by {
        assert forall|a: PartialHitView| #[trigger] e.to_multiset().count(a) == 0 by {
            assert(!e.contains(a));
        }
    }
    assert(seq![x] =~= e.push(x));
}

/// Inserting into a sorted sequence keeps it sorted, adds the hit, and
/// grows the length by one.
pub proof fn lemma_insert_sorted_ensures(x: PartialHitView, s: Seq<PartialHitView>)
    requires
        sorted_by(s, |a: PartialHitView, b: PartialHitView| hit_le(a, b)),
    ensures
        sorted_by(insert_sorted(x, s), |a: PartialHitView, b: PartialHitView| hit_le(a, b)),
        insert_sorted(x, s).to_multiset() == s.to_multiset().insert(x),
        insert_sorted(x, s).len() == s.len() + 1,
    decreases s.len(),
{
    broadcast use vstd::seq_lib::group_to_multiset_ensures;
    broadcast use vstd::multiset::group_multiset_axioms;

    let leq = |a: PartialHitView, b: PartialHitView| hit_le(a, b);
    let t = insert_sorted(x, s);
    if s.len() > 0 && hit_le(s[0], x) {
        let rest = s.drop_first();
        assert(forall|i: int, j: int| 0 <= i < j < rest.len() ==> leq(rest[i], rest[j]));
        lemma_insert_sorted_ensures(x, rest);
        let tr = insert_sorted(x, rest);
        assert(t =~= seq![s[0]] + tr);
        assert forall|i: int, j: int| 0 <= i < j < t.len() implies leq(t[i], t[j]) by {
            if i == 0 {
                assert(t[0] == s[0]);
                assert(tr.contains(t[j]));
                assert(tr.to_multiset().count(t[j]) > 0);
                if t[j] == x {
                    assert(hit_le(s[0], x));
                } else {
                    assert(rest.to_multiset().count(t[j]) > 0);
                    assert(rest.contains(t[j]));
                    let w = choose|w: int| 0 <= w < rest.len() && rest[w] == t[j];
                    assert(leq(s[0], s[w + 1]));
                }
            } else {
                assert(t[i] == tr[i - 1] && t[j] == tr[j - 1]);
            }
        }
        lemma_singleton_multiset(s[0]);
        lemma_multiset_commutative(seq![s[0]], tr);
        lemma_multiset_commutative(seq![s[0]], rest);
        assert(s =~= seq![s[0]] + rest);
        assert(t.to_multiset() =~= s.to_multiset().insert(x));
    } else {
        assert(t =~= seq![x] + s);
        assert forall|i: int, j: int| 0 <= i < j < t.len() implies leq(t[i], t[j]) by {
            if i == 0 {
                assert(t[0] == x);
                if s.len() > 0 {
                    lemma_hit_le_total(s[0], x);
                    assert(hit_le(x, s[0]));
                    if j > 1 {
                        assert(leq(s[0], s[j - 1]));
                        lemma_hit_le_trans(x, s[0], s[j - 1]);
                    }
                }
            } else {
                assert(t[i] == s[i - 1] && t[j] == s[j - 1]);
            }
        }
        lemma_singleton_multiset(x);
        lemma_multiset_commutative(seq![x], s);
        assert(t.to_multiset() =~= s.to_multiset().insert(x));
    }
}

/// The merge order is sorted under the tie-break and is a permutation
/// of its input: merging reorders the hits and loses none.
pub proof fn lemma_merge_sort_ensures(s: Seq<PartialHitView>)
    ensures
        sorted_by(merge_sort_hits(s), |a: PartialHitView, b: PartialHitView| hit_le(a, b)),
        merge_sort_hits(s).to_multiset() == s.to_multiset(),
        merge_sort_hits(s).len() == s.len(),
    decreases s.len(),
{
    broadcast use vstd::seq_lib::group_to_multiset_ensures;
    broadcast use vstd::multiset::group_multiset_axioms;

    if s.len() == 0 {
        assert(merge_sort_hits(s) =~= s);
    } else {
        lemma_merge_sort_ensures(s.drop_last());
        lemma_insert_sorted_ensures(s.last(), merge_sort_hits(s.drop_last()));
        assert(s =~= s.drop_last().push(s.last()));
        assert(s.to_multiset() =~= s.drop_last().to_multiset().insert(s.last()));
        assert(merge_sort_hits(s).to_multiset() =~= s.to_multiset());
    }
}


/// The hits of all leaf responses, in response order.
pub open spec fn flat_hit_views(rs: Seq<Vec<PartialHit>>) -> Seq<PartialHitView>
    decreases rs.len(),
{
    if rs.len() == 0 {
        Seq::empty()
    } else {
        flat_hit_views(rs.drop_last()) + hit_views(rs.last()@)
    }
}

/// The smaller of two values.
pub open spec fn min_int(a: int, b: int) -> int {
    if a < b {
        a
    } else {
        b
    }
}

/// The window of the merge a request asks for: all hits in merge
/// order, truncated to `start + max` and sliced from `start`.
pub open spec fn merged_window(flat: Seq<PartialHitView>, start: int, max: int) -> Seq<
    PartialHitView,
> {
    let sorted = merge_sort_hits(flat);
    sorted.subrange(min_int(start, sorted.len() as int), min_int(start + max, sorted.len() as int))
}

/// Inserting at the first position whose hit does not precede or tie
/// with the new hit realizes the sorted insertion.
pub proof fn lemma_insert_sorted_position(x: PartialHitView, s: Seq<PartialHitView>, p: int)
    requires
        0 <= p <= s.len(),
        forall|q: int| 0 <= q < p ==> hit_le(#[trigger] s[q], x),
        p == s.len() || !hit_le(s[p], x),
    ensures
        insert_sorted(x, s) == s.take(p) + seq![x] + s.skip(p),
    decreases s.len(),
{
    if p == 0 {
        assert(insert_sorted(x, s) =~= s.take(0) + seq![x] + s.skip(0));
    } else {
        assert(hit_le(s[0], x));
        let rest = s.drop_first();
        assert(forall|q: int| 0 <= q < p - 1 ==> hit_le(#[trigger] rest[q], x));
        assert(p - 1 == rest.len() || !hit_le(rest[p - 1], x));
        lemma_insert_sorted_position(x, rest, p - 1);
        assert(insert_sorted(x, s) =~= s.take(p) + seq![x] + s.skip(p));
    }
}

/// Places a hit at its position in a list kept in merge order.
#[verifier::loop_isolation(false)]
fn insert_hit(out: &mut Vec<PartialHit>, h: PartialHit)
    ensures
        hit_views(final(out)@) == insert_sorted(h@, hit_views(old(out)@)),
{
    let ghost s = hit_views(out@);
    let mut p: usize = 0;
    while p < out.len() && hit_le_exec(&out[p], &h)
        invariant
            p <= out@.len(),
            forall|q: int| 0 <= q < p ==> hit_le(#[trigger] s[q], h@),
        decreases out@.len() - p,
    {
        p = p + 1;
    }
    proof {
        lemma_insert_sorted_position(h@, s, p as int);
    }
    let ghost prev = out@;
    out.insert(p, h);
    proof {
        assert(hit_views(out@) =~= s.take(p as int) + seq![h@] + s.skip(p as int)) by {
            assert(out@ == prev.insert(p as int, h));
            assert forall|q: int| 0 <= q < out@.len() implies hit_views(out@)[q] == (s.take(
                p as int,
            ) + seq![h@] + s.skip(p as int))[q] by {
                if q < p {
                    assert(out@[q] == prev[q]);
                } else if q == p {
                    assert(out@[q] == h);
                } else {
                    assert(out@[q] == prev[q - 1]);
                }
            }
        }
    }
}

/// Merges the partial hits of the leaf responses into the documented
/// order, truncated to `start_offset + max_hits` and sliced from
/// `start_offset`. The result is a deterministic function of the
/// responses: hits in merge order, with ties broken by split id,
/// segment and doc id.
#[verifier::loop_isolation(false)]
pub fn merge_partial_hits(
    responses: &Vec<Vec<PartialHit>>,
    start_offset: usize,
    max_hits: usize,
) -> (r: Vec<PartialHit>)
    ensures
        hit_views(r@) == merged_window(
            flat_hit_views(responses@),
            start_offset as int,
            max_hits as int,
        ),
        sorted_by(hit_views(r@), |a: PartialHitView, b: PartialHitView| hit_le(a, b)),
{
    let ghost flat = flat_hit_views(responses@);
    let mut sorted: Vec<PartialHit> = Vec::new();
    let mut i: usize = 0;
    while i < responses.len()
        invariant
            i <= responses@.len(),
            hit_views(sorted@) == merge_sort_hits(flat_hit_views(responses@.take(i as int))),
        decreases responses@.len() - i,
    {
        let resp = &responses[i];
        let mut k: usize = 0;
        while k < resp.len()
            invariant
                k <= resp@.len(),
                resp == &responses@[i as int],
                i < responses@.len(),
                hit_views(sorted@) == merge_sort_hits(
                    flat_hit_views(responses@.take(i as int)) + hit_views(resp@.take(k as int)),
                ),
            decreases resp@.len() - k,
        {
            let ghost pre = flat_hit_views(responses@.take(i as int)) + hit_views(
                resp@.take(k as int),
            );
            insert_hit(&mut sorted, resp[k].clone());
            proof {
                let nxt = flat_hit_views(responses@.take(i as int)) + hit_views(
                    resp@.take(k + 1),
                );
                assert(nxt =~= pre.push(resp@[k as int]@));
                assert(nxt.drop_last() =~= pre);
                assert(merge_sort_hits(nxt) == insert_sorted(resp@[k as int]@, merge_sort_hits(
                    pre,
                )));
            }
            k = k + 1;
        }
        proof {
            assert(responses@.take(i + 1).drop_last() =~= responses@.take(i as int));
            assert(responses@.take(i + 1).last() == responses@[i as int]);
            assert(resp@.take(resp@.len() as int) =~= resp@);
            assert(flat_hit_views(responses@.take(i + 1)) =~= flat_hit_views(responses@.take(
                i as int,
            )) + hit_views(resp@));
        }
        i = i + 1;
    }
    proof {
        assert(responses@.take(responses@.len() as int) =~= responses@);
        lemma_merge_sort_ensures(flat);
    }
    let n = sorted.len();
    let lo = if start_offset < n {
        start_offset
    } else {
        n
    };
    let remaining = n - lo;
    let cnt = if max_hits < remaining {
        max_hits
    } else {
        remaining
    };
    let mut out: Vec<PartialHit> = Vec::new();
    let mut q: usize = lo;
    while q < lo + cnt
        invariant
            lo <= q <= lo + cnt <= n,
            n == sorted@.len(),
            hit_views(sorted@) == merge_sort_hits(flat),
            hit_views(out@) =~= hit_views(sorted@).subrange(lo as int, q as int),
        decreases lo + cnt - q,
    {
        out.push(sorted[q].clone());
        proof {
            assert(hit_views(out@) =~= hit_views(sorted@).subrange(lo as int, q + 1));
        }
        q = q + 1;
    }
    proof {
        assert(hit_views(out@) =~= merged_window(flat, start_offset as int, max_hits as int));
        lemma_merge_sort_ensures(flat);
        let leq = |a: PartialHitView, b: PartialHitView| hit_le(a, b);
        assert forall|x: int, y: int| 0 <= x < y < hit_views(out@).len() implies leq(
            hit_views(out@)[x],
            hit_views(out@)[y],
        ) by {
            assert(hit_views(out@)[x] == merge_sort_hits(flat)[lo + x]);
            assert(hit_views(out@)[y] == merge_sort_hits(flat)[lo + y]);
        }
    }
    out
}

/// The total number of hits reported by the leaves.
pub open spec fn spec_sum_hits(counts: Seq<u64>) -> int
    decreases counts.len(),
{
    if counts.len() == 0 {
        0
    } else {
        spec_sum_hits(counts.drop_last()) + counts.last()
    }
}

/// A prefix never sums to more than the whole.
pub proof fn lemma_sum_hits_take_le(counts: Seq<u64>, i: int)
    requires
        0 <= i <= counts.len(),
    ensures
        spec_sum_hits(counts.take(i)) <= spec_sum_hits(counts),
    decreases counts.len(),
{
    if i == counts.len() {
        assert(counts.take(i) =~= counts);
    } else {
        assert(counts.take(i) =~= counts.drop_last().take(i));
        lemma_sum_hits_take_le(counts.drop_last(), i);
    }
}

/// Sums the hit counts of the leaf responses.
#[verifier::loop_isolation(false)]
pub fn sum_num_hits(counts: &Vec<u64>) -> (r: u64)
    requires
        spec_sum_hits(counts@) <= u64::MAX,
    ensures
        r == spec_sum_hits(counts@),
{
    let mut total: u64 = 0;
    let mut i: usize = 0;
    while i < counts.len()
        invariant
            i <= counts@.len(),
            total == spec_sum_hits(counts@.take(i as int)),
        decreases counts@.len() - i,
    {
        proof {
            assert(counts@.take(i + 1).drop_last() =~= counts@.take(i as int));
            assert(counts@.take(i + 1).last() == counts@[i as int]);
            lemma_sum_hits_take_le(counts@, i + 1);
            assert(spec_sum_hits(counts@.take(i as int)) >= 0) by {
                lemma_sum_hits_nonneg(counts@.take(i as int));
            }
        }
        total = total + counts[i];
        i = i + 1;
    }
    proof {
        assert(counts@.take(counts@.len() as int) =~= counts@);
    }
    total
}

/// The sum of hit counts is never negative.
pub proof fn lemma_sum_hits_nonneg(counts: Seq<u64>)
    ensures
        spec_sum_hits(counts) >= 0,
    decreases counts.len(),
{
    if counts.len() > 0 {
        lemma_sum_hits_nonneg(counts.drop_last());
    }
}

} // verus!
