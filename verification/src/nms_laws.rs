//! What holds of score ordering, IoU and non-maximum suppression on every input.

use vstd::prelude::*;
use vstd::multiset::Multiset;
use crate::boxes::{
    DetBox, IouThreshold, insert_by_score, sorted_by_score, suppresses, iou_exceeds, hit_before,
    kept_flags, keep_where, nms_result, above_confidence, post_processed, inter4, union4,
    overlap2, lemma_kept_flags_len, lemma_kept_flags_char,
};

verus! {

broadcast use vstd::seq_lib::group_to_multiset_ensures;

/// Scores never increase along the sequence.
pub open spec fn score_ordered(s: Seq<DetBox>) -> bool {
    forall|i: int, j: int| 0 <= i < j < s.len() ==> s[i].score >= s[j].score
}

/// How many leading boxes have a score at least that of `b`.
pub open spec fn insert_pos(s: Seq<DetBox>, b: DetBox) -> int
    decreases s.len(),
{
    if s.len() == 0 || s[0].score < b.score {
        0
    } else {
        1 + insert_pos(s.drop_first(), b)
    }
}

proof fn lemma_insert_is_seq_insert(s: Seq<DetBox>, b: DetBox)
    ensures
        0 <= insert_pos(s, b) <= s.len(),
        insert_by_score(s, b) == s.insert(insert_pos(s, b), b),
    decreases s.len(),
{
    if s.len() == 0 {
        assert(s.insert(0, b) =~= seq![b]);
    } else if s[0].score < b.score {
        assert(s.insert(0, b) =~= seq![b] + s);
    } else {
        lemma_insert_is_seq_insert(s.drop_first(), b);
        let p = insert_pos(s.drop_first(), b);
        assert(seq![s[0]] + s.drop_first().insert(p, b) =~= s.insert(p + 1, b));
    }
}

proof fn lemma_insert_ordered(s: Seq<DetBox>, b: DetBox)
    requires
        score_ordered(s),
    ensures
        score_ordered(insert_by_score(s, b)),
    decreases s.len(),
{
    lemma_insert_is_seq_insert(s, b);
    if s.len() > 0 && s[0].score >= b.score {
        let rest = s.drop_first();
        lemma_insert_ordered(rest, b);
        lemma_insert_is_seq_insert(rest, b);
        let r = insert_by_score(rest, b);
        assert forall|k: int| 0 <= k < r.len() implies r[k].score <= s[0].score by {
            let p = insert_pos(rest, b);
            if k < p {
                assert(r[k] == rest[k]);
                assert(s[k + 1] == rest[k]);
            } else if k > p {
                assert(r[k] == rest[k - 1]);
                assert(s[k] == rest[k - 1]);
            }
        }
        assert(insert_by_score(s, b) =~= seq![s[0]] + r);
    }
}

/// Ordering by score yields scores that never increase.
pub proof fn lemma_sorted_is_ordered(s: Seq<DetBox>)
    ensures
        score_ordered(sorted_by_score(s)),
    decreases s.len(),
{
    if s.len() > 0 {
        lemma_sorted_is_ordered(s.drop_last());
        lemma_insert_ordered(sorted_by_score(s.drop_last()), s.last());
    }
}

/// Ordering by score rearranges the boxes and loses or adds none.
pub proof fn lemma_sorted_is_permutation(s: Seq<DetBox>)
    ensures
        sorted_by_score(s).to_multiset() == s.to_multiset(),
        sorted_by_score(s).len() == s.len(),
    decreases s.len(),
{
    if s.len() > 0 {
        let u = sorted_by_score(s.drop_last());
        lemma_sorted_is_permutation(s.drop_last());
        lemma_insert_is_seq_insert(u, s.last());
        vstd::seq_lib::to_multiset_insert(u, insert_pos(u, s.last()), s.last());
        assert(s.drop_last().push(s.last()) =~= s);
    }
}

/// Boxes already ordered by score stay as they are.
pub proof fn lemma_sorted_of_ordered(s: Seq<DetBox>)
    requires
        score_ordered(s),
    ensures
        sorted_by_score(s) == s,
    decreases s.len(),
{
    if s.len() > 0 {
        let u = s.drop_last();
        lemma_sorted_of_ordered(u);
        lemma_insert_is_seq_insert(u, s.last());
        assert forall|k: int| 0 <= k < u.len() implies u[k].score >= s.last().score by {
            assert(u[k] == s[k]);
        }
        lemma_insert_pos_end(u, s.last());
        assert(u.insert(u.len() as int, s.last()) =~= s);
    }
}

proof fn lemma_insert_pos_end(s: Seq<DetBox>, b: DetBox)
    requires
        forall|k: int| 0 <= k < s.len() ==> s[k].score >= b.score,
    ensures
        insert_pos(s, b) == s.len(),
    decreases s.len(),
{
    if s.len() > 0 {
        assert forall|k: int| 0 <= k < s.drop_first().len() implies s.drop_first()[k].score
            >= b.score by {
            assert(s.drop_first()[k] == s[k + 1]);
        }
        lemma_insert_pos_end(s.drop_first(), b);
    }
}

/// Every kept box is a flagged box of the sequence.
proof fn lemma_keep_where_members(s: Seq<DetBox>, f: Seq<bool>)
    requires
        f.len() >= s.len(),
    ensures
        forall|p: int|
            0 <= p < keep_where(s, f).len() ==> exists|k: int|
                0 <= k < s.len() && f[k] && #[trigger] keep_where(s, f)[p] == s[k],
        keep_where(s, f).len() <= s.len(),
    decreases s.len(),
{
    if s.len() > 0 {
        let u = s.drop_last();
        lemma_keep_where_members(u, f);
        let r = keep_where(u, f);
        assert forall|p: int| 0 <= p < keep_where(s, f).len() implies exists|k: int|
            0 <= k < s.len() && f[k] && #[trigger] keep_where(s, f)[p] == s[k] by {
            if p < r.len() {
                let k = choose|k: int| 0 <= k < u.len() && f[k] && #[trigger] r[p] == u[k];
                assert(keep_where(s, f)[p] == s[k]);
            } else {
                assert(keep_where(s, f)[p] == s[s.len() - 1]);
            }
        }
    }
}

/// Every flagged box is kept.
proof fn lemma_keep_where_contains(s: Seq<DetBox>, f: Seq<bool>, k: int)
    requires
        f.len() >= s.len(),
        0 <= k < s.len(),
        f[k],
    ensures
        keep_where(s, f).contains(s[k]),
    decreases s.len(),
{
    let u = s.drop_last();
    if k < s.len() - 1 {
        lemma_keep_where_contains(u, f, k);
        let r = keep_where(u, f);
        let p = choose|p: int| 0 <= p < r.len() && r[p] == u[k];
        if f[s.len() - 1] {
            assert(keep_where(s, f)[p] == r[p]);
        }
    } else {
        assert(keep_where(s, f)[keep_where(s, f).len() - 1] == s[k]);
    }
}

/// What is kept is drawn from the sequence, each box at most as often as
/// it occurs there.
proof fn lemma_keep_where_submultiset(s: Seq<DetBox>, f: Seq<bool>)
    requires
        f.len() >= s.len(),
    ensures
        keep_where(s, f).to_multiset().subset_of(s.to_multiset()),
    decreases s.len(),
{
    broadcast use vstd::multiset::group_multiset_properties;
    if s.len() == 0 {
        assert(keep_where(s, f).to_multiset() =~= s.to_multiset());
    } else {
        let u = s.drop_last();
        lemma_keep_where_submultiset(u, f);
        assert(u.push(s.last()) =~= s);
        assert(s.to_multiset() =~= u.to_multiset().insert(s.last()));
    }
}

/// Keeping with every flag set keeps everything.
proof fn lemma_keep_where_all(s: Seq<DetBox>, f: Seq<bool>)
    requires
        f.len() >= s.len(),
        forall|k: int| 0 <= k < s.len() ==> f[k],
    ensures
        keep_where(s, f) == s,
    decreases s.len(),
{
    if s.len() > 0 {
        lemma_keep_where_all(s.drop_last(), f);
        assert(s.drop_last().push(s.last()) =~= s);
    }
}

/// What is kept from a score-ordered sequence is score-ordered.
proof fn lemma_keep_where_ordered(s: Seq<DetBox>, f: Seq<bool>)
    requires
        f.len() >= s.len(),
        score_ordered(s),
    ensures
        score_ordered(keep_where(s, f)),
    decreases s.len(),
{
    if s.len() > 0 {
        let u = s.drop_last();
        lemma_keep_where_ordered(u, f);
        lemma_keep_where_members(u, f);
        let r = keep_where(u, f);
        if f[s.len() - 1] {
            assert forall|p: int| 0 <= p < r.len() implies r[p].score >= s.last().score by {
                let k = choose|k: int| 0 <= k < u.len() && f[k] && #[trigger] r[p] == u[k];
                assert(u[k] == s[k]);
            }
        }
    }
}

/// No kept box suppresses a kept box after it.
proof fn lemma_keep_where_flags_independent(s: Seq<DetBox>, t: IouThreshold, n: nat)
    requires
        n <= s.len(),
    ensures
        forall|p: int, q: int|
            0 <= p < q < keep_where(s.take(n as int), kept_flags(s, t, s.len())).len() ==> !suppresses(
                #[trigger] keep_where(s.take(n as int), kept_flags(s, t, s.len()))[p],
                #[trigger] keep_where(s.take(n as int), kept_flags(s, t, s.len()))[q],
                t,
            ),
    decreases n,
{
    let f = kept_flags(s, t, s.len());
    lemma_kept_flags_len(s, t, s.len());
    if n > 0 {
        let m = (n - 1) as int;
        let sn = s.take(n as int);
        let sm = s.take(m);
        assert(sn.drop_last() =~= sm);
        lemma_keep_where_flags_independent(s, t, (n - 1) as nat);
        lemma_keep_where_members(sm, f);
        let r = keep_where(sm, f);
        if f[m] {
            lemma_kept_flags_char(s, t, s.len(), m);
            let rr = keep_where(sn, f);
            assert(rr == r.push(s[m]));
            assert forall|p: int, q: int| 0 <= p < q < rr.len() implies !suppresses(
                #[trigger] rr[p],
                #[trigger] rr[q],
                t,
            ) by {
                if q == r.len() {
                    let k = choose|k: int| 0 <= k < sm.len() && f[k] && #[trigger] r[p] == sm[k];
                    assert(sm[k] == s[k]);
                    if suppresses(s[k], s[m], t) {
                        assert(hit_before(s, t, f, m, m));
                    }
                } else {
                    assert(rr[p] == r[p]);
                    assert(rr[q] == r[q]);
                }
            }
        }
    }
}

/// IoU does not depend on the order of the two boxes.
pub proof fn lemma_iou_symmetric(a: DetBox, b: DetBox, t: IouThreshold)
    ensures
        iou_exceeds(a, b, t) == iou_exceeds(b, a, t),
        inter4(a, b) == inter4(b, a),
        union4(a, b) == union4(b, a),
{
}

/// No two boxes that non-maximum suppression keeps are of one class with an
/// IoU above the threshold.
pub proof fn lemma_nms_kept_are_apart(boxes: Seq<DetBox>, t: IouThreshold)
    ensures
        forall|p: int, q: int|
            0 <= p < nms_result(boxes, t).len() && 0 <= q < nms_result(boxes, t).len() && p != q
                ==> !suppresses(#[trigger] nms_result(boxes, t)[p], #[trigger] nms_result(boxes, t)[q], t),
{
    let s = sorted_by_score(boxes);
    lemma_keep_where_flags_independent(s, t, s.len());
    assert(s.take(s.len() as int) =~= s);
    let r = nms_result(boxes, t);
    assert forall|p: int, q: int|
        0 <= p < r.len() && 0 <= q < r.len() && p != q implies !suppresses(
        #[trigger] r[p],
        #[trigger] r[q],
        t,
    ) by {
        lemma_iou_symmetric(r[p], r[q], t);
    }
}

/// Non-maximum suppression keeps its boxes ordered by score, highest first.
pub proof fn lemma_nms_ordered(boxes: Seq<DetBox>, t: IouThreshold)
    ensures
        score_ordered(nms_result(boxes, t)),
{
    let s = sorted_by_score(boxes);
    lemma_sorted_is_ordered(boxes);
    lemma_sorted_is_permutation(boxes);
    lemma_kept_flags_len(s, t, s.len());
    lemma_keep_where_ordered(s, kept_flags(s, t, s.len()));
}

/// Non-maximum suppression only drops boxes: each box of the result occurs
/// in the input at least as often.
pub proof fn lemma_nms_drops_only(boxes: Seq<DetBox>, t: IouThreshold)
    ensures
        nms_result(boxes, t).to_multiset().subset_of(boxes.to_multiset()),
{
    let s = sorted_by_score(boxes);
    lemma_sorted_is_permutation(boxes);
    lemma_kept_flags_len(s, t, s.len());
    lemma_keep_where_submultiset(s, kept_flags(s, t, s.len()));
}

/// Every input box is kept, or a kept box of its class with at least its
/// score has an IoU with it above the threshold.
pub proof fn lemma_nms_covers(boxes: Seq<DetBox>, t: IouThreshold, i: int)
    requires
        0 <= i < boxes.len(),
    ensures
        nms_result(boxes, t).contains(boxes[i]) || exists|p: int|
            0 <= p < nms_result(boxes, t).len() && #[trigger] suppresses(
                nms_result(boxes, t)[p],
                boxes[i],
                t,
            ) && nms_result(boxes, t)[p].score >= boxes[i].score,
{
    let s = sorted_by_score(boxes);
    let f = kept_flags(s, t, s.len());
    let r = nms_result(boxes, t);
    lemma_sorted_is_permutation(boxes);
    lemma_sorted_is_ordered(boxes);
    lemma_kept_flags_len(s, t, s.len());
    assert(boxes.to_multiset().count(boxes[i]) > 0);
    assert(s.contains(boxes[i]));
    let j = choose|j: int| 0 <= j < s.len() && s[j] == boxes[i];
    lemma_kept_flags_char(s, t, s.len(), j);
    if f[j] {
        lemma_keep_where_contains(s, f, j);
    } else {
        let k = choose|k: int| 0 <= k < j && k < j && f[k] && #[trigger] suppresses(s[k], s[j], t);
        lemma_keep_where_contains(s, f, k);
        let p = choose|p: int| 0 <= p < r.len() && r[p] == s[k];
        assert(suppresses(r[p], boxes[i], t));
    }
}

proof fn lemma_flags_all_kept(r: Seq<DetBox>, t: IouThreshold, m: nat)
    requires
        m <= r.len(),
        forall|p: int, q: int|
            0 <= p < r.len() && 0 <= q < r.len() && p != q ==> !suppresses(
                #[trigger] r[p],
                #[trigger] r[q],
                t,
            ),
    ensures
        forall|k: int| 0 <= k < m ==> kept_flags(r, t, m)[k],
    decreases m,
{
    if m > 0 {
        let n = (m - 1) as nat;
        lemma_flags_all_kept(r, t, n);
        lemma_kept_flags_len(r, t, n);
        let f = kept_flags(r, t, n);
        if hit_before(r, t, f, n as int, n as int) {
            let k = choose|k: int| 0 <= k < n && k < n && f[k] && #[trigger] suppresses(r[k], r[n as int], t);
            assert(!suppresses(r[k], r[n as int], t));
        }
    }
}

/// Suppressing again changes nothing: the result of non-maximum
/// suppression is its own result.
pub proof fn lemma_nms_idempotent(boxes: Seq<DetBox>, t: IouThreshold)
    ensures
        nms_result(nms_result(boxes, t), t) == nms_result(boxes, t),
{
    let r = nms_result(boxes, t);
    lemma_nms_ordered(boxes, t);
    lemma_nms_kept_are_apart(boxes, t);
    lemma_sorted_of_ordered(r);
    lemma_flags_all_kept(r, t, r.len());
    lemma_kept_flags_len(r, t, r.len());
    lemma_keep_where_all(r, kept_flags(r, t, r.len()));
}

/// Every detection of an image has a score above the confidence.
pub proof fn lemma_post_processed_above_confidence(s: Seq<DetBox>, confidence: u64, t: IouThreshold)
    ensures
        forall|p: int|
            0 <= p < post_processed(s, confidence, t).len() ==> #[trigger] post_processed(
                s,
                confidence,
                t,
            )[p].score > confidence,
{
    broadcast use vstd::multiset::group_multiset_properties;
    let c = above_confidence(s, confidence);
    let r = post_processed(s, confidence, t);
    lemma_nms_drops_only(c, t);
    assert forall|p: int| 0 <= p < r.len() implies #[trigger] r[p].score > confidence by {
        assert(r.to_multiset().count(r[p]) > 0);
        assert(c.to_multiset().count(r[p]) > 0);
        assert(c.contains(r[p]));
        let k = choose|k: int| 0 <= k < c.len() && c[k] == r[p];
        broadcast use vstd::seq_lib::group_filter_ensures;
    }
}

proof fn lemma_overlap_bounds(ac: int, asz: int, bc: int, bsz: int)
    requires
        asz >= 0,
        bsz >= 0,
    ensures
        0 <= overlap2(ac, asz, bc, bsz) <= 2 * asz,
        overlap2(ac, asz, bc, bsz) <= 2 * bsz,
        overlap2(ac, asz, ac, asz) == 2 * asz,
{
}

/// The IoU is at most 1: it never exceeds a threshold of 1 or more.
pub proof fn lemma_iou_at_most_one(a: DetBox, b: DetBox, t: IouThreshold)
    requires
        t.wf(),
        t.num >= t.den,
    ensures
        !iou_exceeds(a, b, t),
{
    let ox = overlap2(a.x as int, a.w as int, b.x as int, b.w as int);
    let oy = overlap2(a.y as int, a.h as int, b.y as int, b.h as int);
    let i = inter4(a, b);
    let u = union4(a, b);
    if a.w > 0 && a.h > 0 && b.w > 0 && b.h > 0 {
        lemma_overlap_bounds(a.x as int, a.w as int, b.x as int, b.w as int);
        lemma_overlap_bounds(a.y as int, a.h as int, b.y as int, b.h as int);
        assert(i <= 4 * (a.w * a.h)) by (nonlinear_arith)
            requires
                i == ox * oy,
                0 <= ox <= 2 * a.w,
                0 <= oy <= 2 * a.h,
        ;
        assert(i <= 4 * (b.w * b.h)) by (nonlinear_arith)
            requires
                i == ox * oy,
                0 <= ox <= 2 * b.w,
                0 <= oy <= 2 * b.h,
        ;
        assert(0 <= i) by (nonlinear_arith)
            requires
                i == ox * oy,
                0 <= ox,
                0 <= oy,
        ;
        assert(b.w * b.h > 0) by (nonlinear_arith)
            requires
                b.w > 0,
                b.h > 0,
        ;
        assert(0 <= i <= u && u > 0);
        assert(i * t.den <= t.num * u) by (nonlinear_arith)
            requires
                0 <= i <= u,
                0 < t.den <= t.num,
        ;
    } else {
        // A side of size 0 or less overlaps nothing.
        assert(ox == 0 || oy == 0);
        assert(i == 0);
        if u > 0 {
            assert(t.num * u > 0) by (nonlinear_arith)
                requires
                    t.num > 0,
                    u > 0,
            ;
        } else if u < 0 {
            assert(t.num * u < 0) by (nonlinear_arith)
                requires
                    t.num > 0,
                    u < 0,
            ;
        }
    }
}

/// A box of positive size has an IoU of 1 with itself: it exceeds every
/// threshold below 1.
pub proof fn lemma_iou_self(a: DetBox, t: IouThreshold)
    requires
        a.w > 0 && a.h > 0,
        t.wf(),
        t.num < t.den,
    ensures
        iou_exceeds(a, a, t),
{
    lemma_overlap_bounds(a.x as int, a.w as int, a.x as int, a.w as int);
    lemma_overlap_bounds(a.y as int, a.h as int, a.y as int, a.h as int);
    let i = inter4(a, a);
    assert(i == 4 * (a.w * a.h)) by (nonlinear_arith)
        requires
            i == (2 * a.w) * (2 * a.h),
    ;
    assert(a.w * a.h > 0) by (nonlinear_arith)
        requires
            a.w > 0,
            a.h > 0,
    ;
    assert(union4(a, a) == i);
    assert(i * t.den > t.num * i) by (nonlinear_arith)
        requires
            i > 0,
            t.num < t.den,
    ;
}

/// Boxes that do not overlap along x have an IoU of 0.
pub proof fn lemma_iou_apart(a: DetBox, b: DetBox, t: IouThreshold)
    requires
        t.wf(),
        2 * a.x + a.w <= 2 * b.x - b.w,
    ensures
        iou_exceeds(a, b, t) == (t.num < 0),
{
    assert(inter4(a, b) == 0);
    let u = union4(a, b);
    if u > 0 {
        assert(0 * t.den > t.num * u <==> t.num < 0) by (nonlinear_arith)
            requires
                u > 0,
        ;
    } else if u < 0 {
        assert(0 * t.den < t.num * u <==> t.num < 0) by (nonlinear_arith)
            requires
                u < 0,
        ;
    }
}

/// Where every copy of a box is flagged, what is kept holds as many copies
/// of it as the sequence.
proof fn lemma_keep_where_count_all(s: Seq<DetBox>, f: Seq<bool>, b: DetBox)
    requires
        f.len() >= s.len(),
        forall|j: int| 0 <= j < s.len() && s[j] == b ==> f[j],
    ensures
        keep_where(s, f).to_multiset().count(b) == s.to_multiset().count(b),
    decreases s.len(),
{
    broadcast use vstd::multiset::group_multiset_properties;
    if s.len() == 0 {
        assert(keep_where(s, f).to_multiset() =~= s.to_multiset());
    } else {
        let u = s.drop_last();
        lemma_keep_where_count_all(u, f, b);
        assert(u.push(s.last()) =~= s);
    }
}

/// Where the input holds more copies of a box than the result of
/// non-maximum suppression, a kept box of its class with at least its score
/// has an IoU with it above the threshold.
pub proof fn lemma_nms_covers_copies(boxes: Seq<DetBox>, t: IouThreshold, b: DetBox)
    requires
        boxes.to_multiset().count(b) > nms_result(boxes, t).to_multiset().count(b),
    ensures
        exists|p: int|
            0 <= p < nms_result(boxes, t).len() && #[trigger] suppresses(
                nms_result(boxes, t)[p],
                b,
                t,
            ) && nms_result(boxes, t)[p].score >= b.score,
{
    let s = sorted_by_score(boxes);
    let f = kept_flags(s, t, s.len());
    let r = nms_result(boxes, t);
    lemma_sorted_is_permutation(boxes);
    lemma_sorted_is_ordered(boxes);
    lemma_kept_flags_len(s, t, s.len());
    if forall|j: int| 0 <= j < s.len() && s[j] == b ==> f[j] {
        lemma_keep_where_count_all(s, f, b);
        assert(false);
    }
    let j = choose|j: int| 0 <= j < s.len() && s[j] == b && !f[j];
    lemma_kept_flags_char(s, t, s.len(), j);
    let k = choose|k: int| 0 <= k < j && k < j && f[k] && #[trigger] suppresses(s[k], s[j], t);
    lemma_keep_where_contains(s, f, k);
    let p = choose|p: int| 0 <= p < r.len() && r[p] == s[k];
    assert(suppresses(r[p], b, t));
}

/// No two boxes of the multiset with the same score differ.
pub open spec fn scores_identify(m: Multiset<DetBox>) -> bool {
    forall|a: DetBox, c: DetBox|
        #![trigger m.count(a), m.count(c)]
        m.count(a) > 0 && m.count(c) > 0 && a.score == c.score ==> a == c
}

/// Two score-ordered sequences of one multiset in which a score identifies
/// its box are equal.
proof fn lemma_ordered_unique(s1: Seq<DetBox>, s2: Seq<DetBox>)
    requires
        score_ordered(s1),
        score_ordered(s2),
        s1.to_multiset() == s2.to_multiset(),
        scores_identify(s1.to_multiset()),
    ensures
        s1 == s2,
    decreases s1.len(),
{
    broadcast use vstd::multiset::group_multiset_properties;
    assert(s1.len() == s1.to_multiset().len());
    assert(s2.len() == s2.to_multiset().len());
    if s1.len() > 0 {
        let x = s1[0];
        let y = s2[0];
        assert(s1.contains(x));
        assert(s2.to_multiset().count(x) > 0);
        assert(s2.contains(x));
        let k = choose|k: int| 0 <= k < s2.len() && s2[k] == x;
        assert(s2.to_multiset().count(y) > 0);
        assert(s1.contains(y));
        let l = choose|l: int| 0 <= l < s1.len() && s1[l] == y;
        assert(x.score >= y.score);
        assert(y.score >= x.score);
        assert(s1.to_multiset().count(x) > 0 && s1.to_multiset().count(y) > 0);
        assert(x == y);
        vstd::seq_lib::to_multiset_remove(s1, 0);
        vstd::seq_lib::to_multiset_remove(s2, 0);
        assert(s1.remove(0) =~= s1.drop_first());
        assert(s2.remove(0) =~= s2.drop_first());
        let m = s1.drop_first().to_multiset();
        assert forall|a: DetBox, c: DetBox|
            #![trigger m.count(a), m.count(c)]
            m.count(a) > 0 && m.count(c) > 0 && a.score == c.score implies a == c by {
            assert(s1.to_multiset().count(a) > 0);
            assert(s1.to_multiset().count(c) > 0);
        }
        assert forall|i: int, j: int|
            0 <= i < j < s1.drop_first().len() implies s1.drop_first()[i].score
            >= s1.drop_first()[j].score by {
            assert(s1.drop_first()[i] == s1[i + 1]);
            assert(s1.drop_first()[j] == s1[j + 1]);
        }
        assert forall|i: int, j: int|
            0 <= i < j < s2.drop_first().len() implies s2.drop_first()[i].score
            >= s2.drop_first()[j].score by {
            assert(s2.drop_first()[i] == s2[i + 1]);
            assert(s2.drop_first()[j] == s2[j + 1]);
        }
        lemma_ordered_unique(s1.drop_first(), s2.drop_first());
        assert(s1 =~= seq![x] + s1.drop_first());
        assert(s2 =~= seq![y] + s2.drop_first());
    }
}

/// With pairwise distinct scores, non-maximum suppression does not depend on
/// the order of its input: every rearrangement of the boxes gives the same
/// result.
pub proof fn lemma_nms_order_independent(boxes: Seq<DetBox>, p: Seq<DetBox>, t: IouThreshold)
    requires
        forall|i: int, j: int| 0 <= i < j < boxes.len() ==> boxes[i].score != boxes[j].score,
        p.to_multiset() == boxes.to_multiset(),
    ensures
        nms_result(p, t) == nms_result(boxes, t),
{
    let m = boxes.to_multiset();
    assert forall|a: DetBox, c: DetBox|
        #![trigger m.count(a), m.count(c)]
        m.count(a) > 0 && m.count(c) > 0 && a.score == c.score implies a == c by {
        assert(boxes.contains(a));
        assert(boxes.contains(c));
        let i = choose|i: int| 0 <= i < boxes.len() && boxes[i] == a;
        let j = choose|j: int| 0 <= j < boxes.len() && boxes[j] == c;
        if i < j {
            assert(boxes[i].score != boxes[j].score);
        } else if j < i {
            assert(boxes[j].score != boxes[i].score);
        }
    }
    lemma_sorted_is_permutation(boxes);
    lemma_sorted_is_permutation(p);
    lemma_sorted_is_ordered(boxes);
    lemma_sorted_is_ordered(p);
    lemma_ordered_unique(sorted_by_score(boxes), sorted_by_score(p));
}

/// Keeping the candidates above a confidence keeps every copy of each box
/// whose score is above it and no copy of any other: counted box by box, the
/// result holds exactly the input's copies of the boxes above the confidence.
pub proof fn lemma_above_confidence_counts(s: Seq<DetBox>, confidence: u64)
    ensures
        forall|b: DetBox|
            #[trigger] above_confidence(s, confidence).to_multiset().count(b) == if b.score
                > confidence {
                s.to_multiset().count(b)
            } else {
                0
            },
        forall|i: int|
            0 <= i < s.len() && s[i].score > confidence ==> #[trigger] above_confidence(
                s,
                confidence,
            ).contains(s[i]),
        forall|p: int|
            0 <= p < above_confidence(s, confidence).len() ==> #[trigger] above_confidence(
                s,
                confidence,
            )[p].score > confidence,
    decreases s.len(),
{
    broadcast use vstd::multiset::group_multiset_properties;
    broadcast use vstd::seq_lib::group_filter_ensures;
    reveal_with_fuel(Seq::filter, 1);
    let r = above_confidence(s, confidence);
    if s.len() == 0 {
        assert(r.to_multiset() =~= s.to_multiset());
    } else {
        let u = s.drop_last();
        lemma_above_confidence_counts(u, confidence);
        assert(u.push(s.last()) =~= s);
        let ru = above_confidence(u, confidence);
        assert(s.to_multiset() =~= u.to_multiset().insert(s.last()));
        if s.last().score > confidence {
            assert(r == ru.push(s.last()));
            assert(r.to_multiset() =~= ru.to_multiset().insert(s.last()));
        } else {
            assert(r == ru);
        }
        assert forall|i: int| 0 <= i < s.len() && s[i].score > confidence implies #[trigger] r.contains(
            s[i],
        ) by {
            assert(s.to_multiset().count(s[i]) > 0);
            assert(r.to_multiset().count(s[i]) > 0);
        }
    }
}

} // verus!
