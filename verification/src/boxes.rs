//! Detection boxes, the exact intersection-over-union test, score ordering and
//! non-maximum suppression.

use vstd::prelude::*;
use crate::wide::{Wide, abs};

verus! {

/// A detection: centre `(x, y)`, width `w` and height `h` in pixels of the
/// model's input, the class index, and the confidence as an order key
/// (a larger key is a larger confidence).
#[derive(Clone, Copy, Debug, PartialEq, Eq, Structural)]
pub struct DetBox {
    pub x: i64,
    pub y: i64,
    pub w: i64,
    pub h: i64,
    pub class: i64,
    pub score: u64,
}

/// An IoU threshold, the fraction `num / den`.
#[derive(Clone, Copy, Debug, PartialEq, Eq, Structural)]
pub struct IouThreshold {
    pub num: i64,
    pub den: u64,
}

impl IouThreshold {
    /// A threshold is a fraction with a positive denominator.
    pub open spec fn wf(self) -> bool {
        self.den > 0
    }
}

pub open spec fn max_int(a: int, b: int) -> int {
    if a >= b {
        a
    } else {
        b
    }
}

pub open spec fn min_int(a: int, b: int) -> int {
    if a <= b {
        a
    } else {
        b
    }
}

/// Twice the length of the overlap of the intervals `[ac - as/2, ac + as/2]`
/// and `[bc - bs/2, bc + bs/2]`, or 0 where they do not overlap.
pub open spec fn overlap2(ac: int, asz: int, bc: int, bsz: int) -> int {
    let lo = max_int(2 * ac - asz, 2 * bc - bsz);
    let hi = min_int(2 * ac + asz, 2 * bc + bsz);
    if hi > lo {
        hi - lo
    } else {
        0
    }
}

/// Four times the area of the intersection of two boxes.
pub open spec fn inter4(a: DetBox, b: DetBox) -> int {
    overlap2(a.x as int, a.w as int, b.x as int, b.w as int) * overlap2(
        a.y as int,
        a.h as int,
        b.y as int,
        b.h as int,
    )
}

/// Four times the area of the union of two boxes: both areas less the
/// intersection.
pub open spec fn union4(a: DetBox, b: DetBox) -> int {
    4 * (a.w * a.h) + 4 * (b.w * b.h) - inter4(a, b)
}

/// Whether the IoU of two boxes, `inter / union` (0 where the union is 0),
/// is above the threshold `num / den`.
pub open spec fn iou_exceeds(a: DetBox, b: DetBox, t: IouThreshold) -> bool {
    let i = inter4(a, b);
    let u = union4(a, b);
    if u == 0 {
        t.num < 0
    } else if u > 0 {
        i * t.den > t.num * u
    } else {
        i * t.den < t.num * u
    }
}

/// Twice the overlap of two intervals given by centre and length.
fn overlap_len(ac: i64, asz: i64, bc: i64, bsz: i64) -> (r: u128)
    ensures
        r == overlap2(ac as int, asz as int, bc as int, bsz as int),
        r <= 0xffff_ffff_ffff_fffe,
{
    let a_lo: i128 = 2 * ac as i128 - asz as i128;
    let a_hi: i128 = 2 * ac as i128 + asz as i128;
    let b_lo: i128 = 2 * bc as i128 - bsz as i128;
    let b_hi: i128 = 2 * bc as i128 + bsz as i128;
    let lo = if a_lo >= b_lo { a_lo } else { b_lo };
    let hi = if a_hi <= b_hi { a_hi } else { b_hi };
    if hi > lo {
        (hi - lo) as u128
    } else {
        0
    }
}

proof fn lemma_product_bounds(p: int, q: int, w: int, h: int)
    requires
        0 <= p <= 0xffff_ffff_ffff_fffe,
        0 <= q <= 0xffff_ffff_ffff_fffe,
        -0x8000_0000_0000_0000 <= w <= 0x7fff_ffff_ffff_ffff,
        -0x8000_0000_0000_0000 <= h <= 0x7fff_ffff_ffff_ffff,
    ensures
        0 <= p * q < 0x1_0000_0000_0000_0000_0000_0000_0000_0000,
        -0x4000_0000_0000_0000_0000_0000_0000_0000 <= w * h <= 0x4000_0000_0000_0000_0000_0000_0000_0000,
{
    assert(0 <= p * q <= 0xffff_ffff_ffff_fffe * 0xffff_ffff_ffff_fffe) by (nonlinear_arith)
        requires
            0 <= p <= 0xffff_ffff_ffff_fffe,
            0 <= q <= 0xffff_ffff_ffff_fffe,
    ;
    let aw = if w < 0 { -w } else { w };
    let ah = if h < 0 { -h } else { h };
    assert(0 <= aw * ah <= 0x8000_0000_0000_0000 * 0x8000_0000_0000_0000) by (nonlinear_arith)
        requires
            0 <= aw <= 0x8000_0000_0000_0000,
            0 <= ah <= 0x8000_0000_0000_0000,
    ;
    assert(w * h == aw * ah || w * h == -(aw * ah)) by (nonlinear_arith)
        requires
            aw == (if w < 0 { -w } else { w }),
            ah == (if h < 0 { -h } else { h }),
    ;
}

/// Four times the union area of two boxes, given four times their
/// intersection area.
fn union_area4(a: &DetBox, b: &DetBox, inter: u128) -> (u: Wide)
    requires
        inter == inter4(*a, *b),
    ensures
        u.val() == union4(*a, *b),
        u.mag() == abs(u.val()),
        u.mag() < 0x4_0000_0000_0000_0000_0000_0000_0000_0000,
{
    proof {
        lemma_product_bounds(0, 0, a.w as int, a.h as int);
        lemma_product_bounds(0, 0, b.w as int, b.h as int);
    }
    let area_a: i128 = a.w as i128 * a.h as i128;
    let area_b: i128 = b.w as i128 * b.h as i128;
    let wa = Wide::from_i128(area_a).mul_u64(4);
    let wb = Wide::from_i128(area_b).mul_u64(4);
    let wi = Wide::from_u128(inter);
    wa.add(&wb).sub(&wi)
}

/// Decides `inter * den > num * union` (or `<` where the union is negative).
fn scaled_compare(inter: u128, u: &Wide, t: &IouThreshold) -> (r: bool)
    requires
        u.val() != 0,
        u.mag() == abs(u.val()),
        u.mag() < 0x4_0000_0000_0000_0000_0000_0000_0000_0000,
    ensures
        r == (if u.val() > 0 {
            inter * t.den > t.num * u.val()
        } else {
            inter * t.den < t.num * u.val()
        }),
{
    let wi = Wide::from_u128(inter);
    proof {
        assert(wi.mag() * t.den < 0x1_0000_0000_0000_0000_0000_0000_0000_0000_0000_0000_0000_0000)
            by (nonlinear_arith)
            requires
                0 <= wi.mag() < 0x1_0000_0000_0000_0000_0000_0000_0000_0000,
                0 <= t.den < 0x1_0000_0000_0000_0000,
        ;
        let n = if t.num < 0 { -t.num } else { t.num as int };
        assert(u.mag() * n < 0x2_0000_0000_0000_0000_0000_0000_0000_0000_0000_0000_0000_0000)
            by (nonlinear_arith)
            requires
                0 <= u.mag() < 0x4_0000_0000_0000_0000_0000_0000_0000_0000,
                0 <= n <= 0x8000_0000_0000_0000,
        ;
    }
    let lhs = wi.mul_u64(t.den);
    let rhs = u.mul_i64(t.num);
    proof {
        let n = if t.num < 0 { -t.num } else { t.num as int };
        assert(abs(u.val() * t.num) == u.mag() * n) by (nonlinear_arith)
            requires
                u.mag() == abs(u.val()),
                n == abs(t.num as int),
        ;
        assert(lhs.mag() == wi.mag() * t.den) by (nonlinear_arith)
            requires
                lhs.mag() == abs(lhs.val()),
                lhs.val() == wi.val() * t.den,
                wi.mag() == wi.val(),
                wi.val() >= 0,
        ;
    }
    let d = lhs.sub(&rhs);
    if u.is_positive() {
        d.is_positive()
    } else {
        d.is_negative()
    }
}

/// Whether the IoU of two boxes is above the threshold, decided exactly.
pub fn iou_above(a: &DetBox, b: &DetBox, t: &IouThreshold) -> (r: bool)
    requires
        t.wf(),
    ensures
        r == iou_exceeds(*a, *b, *t),
{
    let iw = overlap_len(a.x, a.w, b.x, b.w);
    let ih = overlap_len(a.y, a.h, b.y, b.h);
    proof {
        lemma_product_bounds(iw as int, ih as int, 0, 0);
    }
    let inter: u128 = iw * ih;
    let u = union_area4(a, b, inter);
    if !u.is_positive() && !u.is_negative() {
        t.num < 0
    } else {
        scaled_compare(inter, &u, t)
    }
}

/// Inserts a box into a sequence after every leading box whose score is at
/// least its own.
pub open spec fn insert_by_score(s: Seq<DetBox>, b: DetBox) -> Seq<DetBox>
    decreases s.len(),
{
    if s.len() == 0 {
        seq![b]
    } else if s[0].score >= b.score {
        seq![s[0]] + insert_by_score(s.drop_first(), b)
    } else {
        seq![b] + s
    }
}

/// The boxes ordered by score, highest first; boxes of equal score keep
/// their order.
pub open spec fn sorted_by_score(s: Seq<DetBox>) -> Seq<DetBox>
    decreases s.len(),
{
    if s.len() == 0 {
        s
    } else {
        insert_by_score(sorted_by_score(s.drop_last()), s.last())
    }
}

proof fn lemma_insert_at(s: Seq<DetBox>, b: DetBox, pos: int)
    requires
        0 <= pos <= s.len(),
        forall|k: int| 0 <= k < pos ==> s[k].score >= b.score,
        pos == s.len() || s[pos].score < b.score,
    ensures
        insert_by_score(s, b) == s.insert(pos, b),
    decreases pos,
{
    if s.len() == 0 {
        assert(s.insert(pos, b) =~= seq![b]);
    } else if pos == 0 {
        assert(s.insert(0, b) =~= seq![b] + s);
    } else {
        lemma_insert_at(s.drop_first(), b, pos - 1);
        assert(seq![s[0]] + s.drop_first().insert(pos - 1, b) =~= s.insert(pos, b));
    }
}

/// The boxes ordered by score, highest first, keeping the order of boxes of
/// equal score.
pub fn sort_by_score(boxes: &Vec<DetBox>) -> (r: Vec<DetBox>)
    ensures
        r@ == sorted_by_score(boxes@),
{
    let mut out: Vec<DetBox> = Vec::new();
    let n = boxes.len();
    for i in 0..n
        invariant
            n == boxes.len(),
            out@ == sorted_by_score(boxes@.take(i as int)),
    {
        let b = boxes[i];
        let mut pos: usize = 0;
        while pos < out.len() && out[pos].score >= b.score
            invariant
                pos <= out.len(),
                forall|k: int| 0 <= k < pos ==> out@[k].score >= b.score,
            decreases out.len() - pos,
        {
            pos = pos + 1;
        }
        proof {
            lemma_insert_at(out@, b, pos as int);
            assert(boxes@.take(i + 1).drop_last() =~= boxes@.take(i as int));
        }
        out.insert(pos, b);
    }
    assert(boxes@.take(n as int) =~= boxes@);
    out
}

/// Whether box `a` suppresses box `b`: the same class and an IoU above the
/// threshold.
pub open spec fn suppresses(a: DetBox, b: DetBox, t: IouThreshold) -> bool {
    a.class == b.class && iou_exceeds(a, b, t)
}

/// Whether some box before position `j`, and before position `i`, is kept
/// (by `f`) and suppresses the box at `j`.
pub open spec fn hit_before(s: Seq<DetBox>, t: IouThreshold, f: Seq<bool>, i: int, j: int) -> bool {
    exists|k: int| 0 <= k < i && k < j && f[k] && #[trigger] suppresses(s[k], s[j], t)
}

/// Greedy suppression over the first `n` boxes: a box is kept when no kept box
/// before it suppresses it.
pub open spec fn kept_flags(s: Seq<DetBox>, t: IouThreshold, n: nat) -> Seq<bool>
    decreases n,
{
    if n == 0 {
        seq![]
    } else {
        let f = kept_flags(s, t, (n - 1) as nat);
        f.push(!hit_before(s, t, f, n - 1, n - 1))
    }
}

/// The boxes whose flag is set, in order.
pub open spec fn keep_where(s: Seq<DetBox>, f: Seq<bool>) -> Seq<DetBox>
    decreases s.len(),
{
    if s.len() == 0 {
        seq![]
    } else {
        let r = keep_where(s.drop_last(), f);
        if f[s.len() - 1] {
            r.push(s.last())
        } else {
            r
        }
    }
}

/// Non-maximum suppression: the boxes ordered by score, highest first, less
/// every box that a kept box of the same class before it overlaps with an IoU
/// above the threshold.
pub open spec fn nms_result(boxes: Seq<DetBox>, t: IouThreshold) -> Seq<DetBox> {
    let s = sorted_by_score(boxes);
    keep_where(s, kept_flags(s, t, s.len()))
}

pub proof fn lemma_kept_flags_len(s: Seq<DetBox>, t: IouThreshold, n: nat)
    ensures
        kept_flags(s, t, n).len() == n,
    decreases n,
{
    if n > 0 {
        lemma_kept_flags_len(s, t, (n - 1) as nat);
    }
}

/// Later flags never change earlier ones.
pub proof fn lemma_kept_flags_prefix(s: Seq<DetBox>, t: IouThreshold, m: nat, n: nat)
    requires
        m <= n,
    ensures
        kept_flags(s, t, n).take(m as int) == kept_flags(s, t, m),
    decreases n,
{
    lemma_kept_flags_len(s, t, n);
    lemma_kept_flags_len(s, t, m);
    if m == n {
        assert(kept_flags(s, t, n).take(m as int) =~= kept_flags(s, t, m));
    } else {
        lemma_kept_flags_prefix(s, t, m, (n - 1) as nat);
        lemma_kept_flags_len(s, t, (n - 1) as nat);
        assert(kept_flags(s, t, n).take(m as int) =~= kept_flags(s, t, (n - 1) as nat).take(m as int));
    }
}

/// In the flags of `n` boxes, the box at `j` is kept exactly when no kept box
/// before it suppresses it.
pub proof fn lemma_kept_flags_char(s: Seq<DetBox>, t: IouThreshold, n: nat, j: int)
    requires
        0 <= j < n,
    ensures
        kept_flags(s, t, n)[j] == !hit_before(s, t, kept_flags(s, t, n), j, j),
{
    let f = kept_flags(s, t, n);
    let g = kept_flags(s, t, j as nat);
    lemma_kept_flags_prefix(s, t, (j + 1) as nat, n);
    lemma_kept_flags_prefix(s, t, j as nat, n);
    lemma_kept_flags_len(s, t, n);
    lemma_kept_flags_len(s, t, j as nat);
    assert(f[j] == kept_flags(s, t, (j + 1) as nat)[j]);
    assert(forall|k: int| 0 <= k < j ==> f[k] == g[k]);
    if hit_before(s, t, f, j, j) {
        let k = choose|k: int| 0 <= k < j && k < j && f[k] && #[trigger] suppresses(s[k], s[j], t);
        assert(g[k]);
        assert(hit_before(s, t, g, j, j));
    }
    if hit_before(s, t, g, j, j) {
        let k = choose|k: int| 0 <= k < j && k < j && g[k] && #[trigger] suppresses(s[k], s[j], t);
        assert(f[k]);
        assert(hit_before(s, t, f, j, j));
    }
}

/// Non-maximum suppression: orders the boxes by score, highest first, and
/// drops every box that a kept box of the same class ranked before it
/// overlaps with an IoU above the threshold.
pub fn nms(boxes: Vec<DetBox>, threshold: IouThreshold) -> (r: Vec<DetBox>)
    requires
        threshold.wf(),
    ensures
        r@ == nms_result(boxes@, threshold),
{
    let s = sort_by_score(&boxes);
    let n = s.len();
    let ghost f = kept_flags(s@, threshold, n as nat);
    proof {
        lemma_kept_flags_len(s@, threshold, n as nat);
    }
    let mut suppressed: Vec<bool> = Vec::new();
    for k in 0..n
        invariant
            suppressed@.len() == k,
            forall|j: int| 0 <= j < k ==> !suppressed@[j],
    {
        suppressed.push(false);
    }
    for i in 0..n
        invariant
            n == s.len(),
            threshold.wf(),
            f == kept_flags(s@, threshold, n as nat),
            f.len() == n,
            suppressed@.len() == n,
            forall|j: int| 0 <= j < n ==> suppressed@[j] == hit_before(s@, threshold, f, i as int, j),
    {
        proof {
            lemma_kept_flags_char(s@, threshold, n as nat, i as int);
        }
        if !suppressed[i] {
            assert(f[i as int]);
            for j in i + 1..n
                invariant
                    n == s.len(),
                    threshold.wf(),
                    f.len() == n,
                    i < n,
                    f[i as int],
                    suppressed@.len() == n,
                    forall|m: int|
                        i < m < j ==> suppressed@[m] == hit_before(s@, threshold, f, i + 1, m),
                    forall|m: int|
                        0 <= m < n && !(i < m < j) ==> suppressed@[m] == hit_before(
                            s@,
                            threshold,
                            f,
                            i as int,
                            m,
                        ),
            {
                if !suppressed[j] && s[i].class == s[j].class && iou_above(&s[i], &s[j], &threshold) {
                    suppressed.set(j, true);
                    assert(suppresses(s@[i as int], s@[j as int], threshold));
                    assert(hit_before(s@, threshold, f, i + 1, j as int));
                } else {
                    proof {
                        if hit_before(s@, threshold, f, i + 1, j as int) {
                            let k = choose|k: int|
                                0 <= k < i + 1 && k < j && f[k] && #[trigger] suppresses(
                                    s@[k],
                                    s@[j as int],
                                    threshold,
                                );
                            if k < i {
                                assert(hit_before(s@, threshold, f, i as int, j as int));
                            }
                        }
                        if hit_before(s@, threshold, f, i as int, j as int) {
                            let k = choose|k: int|
                                0 <= k < i && k < j && f[k] && #[trigger] suppresses(
                                    s@[k],
                                    s@[j as int],
                                    threshold,
                                );
                            assert(hit_before(s@, threshold, f, i + 1, j as int));
                        }
                    }
                }
            }
            assert forall|m: int| 0 <= m < n implies suppressed@[m] == hit_before(
                s@,
                threshold,
                f,
                i + 1,
                m,
            ) by {
                if m <= i {
                    if hit_before(s@, threshold, f, i + 1, m) {
                        let k = choose|k: int|
                            0 <= k < i + 1 && k < m && f[k] && #[trigger] suppresses(
                                s@[k],
                                s@[m],
                                threshold,
                            );
                        assert(hit_before(s@, threshold, f, i as int, m));
                    }
                }
            }
        } else {
            assert(!f[i as int]);
            assert forall|m: int| 0 <= m < n implies suppressed@[m] == hit_before(
                s@,
                threshold,
                f,
                i + 1,
                m,
            ) by {
                if hit_before(s@, threshold, f, i + 1, m) {
                    let k = choose|k: int|
                        0 <= k < i + 1 && k < m && f[k] && #[trigger] suppresses(
                            s@[k],
                            s@[m],
                            threshold,
                        );
                    assert(hit_before(s@, threshold, f, i as int, m));
                }
            }
        }
    }
    let mut out: Vec<DetBox> = Vec::new();
    for i in 0..n
        invariant
            n == s.len(),
            f == kept_flags(s@, threshold, n as nat),
            f.len() == n,
            suppressed@.len() == n,
            forall|j: int| 0 <= j < n ==> suppressed@[j] == hit_before(s@, threshold, f, n as int, j),
            out@ == keep_where(s@.take(i as int), f),
    {
        proof {
            lemma_kept_flags_char(s@, threshold, n as nat, i as int);
            assert(hit_before(s@, threshold, f, n as int, i as int) == hit_before(
                s@,
                threshold,
                f,
                i as int,
                i as int,
            )) by {
                if hit_before(s@, threshold, f, n as int, i as int) {
                    let k = choose|k: int|
                        0 <= k < n && k < i && f[k] && #[trigger] suppresses(
                            s@[k],
                            s@[i as int],
                            threshold,
                        );
                    assert(hit_before(s@, threshold, f, i as int, i as int));
                }
                if hit_before(s@, threshold, f, i as int, i as int) {
                    let k = choose|k: int|
                        0 <= k < i && k < i && f[k] && #[trigger] suppresses(
                            s@[k],
                            s@[i as int],
                            threshold,
                        );
                    assert(hit_before(s@, threshold, f, n as int, i as int));
                }
            }
            assert(s@.take(i + 1).drop_last() =~= s@.take(i as int));
        }
        if !suppressed[i] {
            out.push(s[i]);
        }
    }
    assert(s@.take(n as int) =~= s@);
    out
}

/// The boxes whose score is above the confidence, in order.
pub open spec fn above_confidence(s: Seq<DetBox>, confidence: u64) -> Seq<DetBox> {
    s.filter(|b: DetBox| b.score > confidence)
}

/// What one image's detections come to: those above the confidence, after
/// non-maximum suppression.
pub open spec fn post_processed(s: Seq<DetBox>, confidence: u64, t: IouThreshold) -> Seq<DetBox> {
    nms_result(above_confidence(s, confidence), t)
}

/// Keeps the candidates whose score is above the confidence, in order.
pub fn filter_confidence_async(candidates: &Vec<DetBox>, confidence: u64) -> (r: Vec<DetBox>)
    ensures
        r@ == above_confidence(candidates@, confidence),
{
    let mut out: Vec<DetBox> = Vec::new();
    let n = candidates.len();
    for i in 0..n
        invariant
            n == candidates.len(),
            out@ == above_confidence(candidates@.take(i as int), confidence),
    {
        proof {
            reveal_with_fuel(Seq::filter, 1);
            assert(candidates@.take(i + 1).drop_last() =~= candidates@.take(i as int));
        }
        if candidates[i].score > confidence {
            out.push(candidates[i]);
        }
    }
    assert(candidates@.take(n as int) =~= candidates@);
    out
}

/// One image's detections: the candidates above the confidence, after
/// non-maximum suppression.
pub fn post_process(candidates: &Vec<DetBox>, confidence: u64, threshold: IouThreshold) -> (r: Vec<
    DetBox,
>)
    requires
        threshold.wf(),
    ensures
        r@ == post_processed(candidates@, confidence, threshold),
{
    let kept = filter_confidence_async(candidates, confidence);
    nms(kept, threshold)
}

/// The detections of each image of a batch.
pub fn get_results(batch: &Vec<Vec<DetBox>>, confidence: u64, threshold: IouThreshold) -> (r: Vec<
    Vec<DetBox>,
>)
    requires
        threshold.wf(),
    ensures
        r.len() == batch.len(),
        forall|i: int|
            0 <= i < batch.len() ==> #[trigger] r[i]@ == post_processed(
                batch[i]@,
                confidence,
                threshold,
            ),
{
    let mut out: Vec<Vec<DetBox>> = Vec::new();
    let n = batch.len();
    for i in 0..n
        invariant
            n == batch.len(),
            threshold.wf(),
            out.len() == i,
            forall|k: int|
                0 <= k < i ==> #[trigger] out[k]@ == post_processed(batch[k]@, confidence, threshold),
    {
        out.push(post_process(&batch[i], confidence, threshold));
    }
    out
}

} // verus!
