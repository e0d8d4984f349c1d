//! Geometric merging of detected text-region boxes.
//!
//! Geometry is kept in fixed-point units: a normalized image fraction of 1.0
//! equals `FRACTION_SCALE` units. Box edges are stored in half-units (two
//! half-units per unit) so that the edges derived from a center and a size are
//! exact integers.

use vstd::prelude::*;

verus! {

/// Number of fixed-point units per 1.0 of normalized image fraction.
pub const FRACTION_SCALE: u32 = 1_000_000;

/// A candidate text region reported by the detector: a confidence and a
/// center/size geometry, all in fixed-point units of `FRACTION_SCALE`.
#[derive(Clone, Copy, Debug, PartialEq, Eq, Structural)]
pub struct DetectedBox {
    pub confidence: u32,
    pub cx: u32,
    pub cy: u32,
    pub w: u32,
    pub h: u32,
}

/// A box in the merger's working set: a confidence and an edge rectangle in
/// half-units (two half-units per fixed-point unit).
#[derive(Clone, Copy, Debug, PartialEq, Eq, Structural)]
pub struct MergedBox {
    pub confidence: u32,
    pub left: u64,
    pub top: u64,
    pub right: u64,
    pub bottom: u64,
}

/// An integer pixel rectangle, clamped to the image bounds.
#[derive(Clone, Copy, Debug, PartialEq, Eq, Structural)]
pub struct PixelRect {
    pub left: u32,
    pub top: u32,
    pub width: u32,
    pub height: u32,
}

/// One recognized symbol with its pixel rectangle, as a word-level OCR
/// backend reports it.
#[derive(Clone, Debug)]
pub struct OcrRect {
    pub symbol: String,
    pub top: i32,
    pub left: i32,
    pub width: i32,
    pub height: i32,
}

impl DetectedBox {
    /// Left edge in half-units: `max(0, cx - w/2)`, computed exactly.
    pub open spec fn spec_left(self) -> int {
        if 2 * self.cx >= self.w {
            2 * self.cx - self.w
        } else {
            0
        }
    }

    /// Right edge in half-units: `cx + w/2`, computed exactly.
    pub open spec fn spec_right(self) -> int {
        2 * self.cx + self.w
    }

    /// Top edge in half-units: `max(0, cy - h/2)`, computed exactly.
    pub open spec fn spec_top(self) -> int {
        if 2 * self.cy >= self.h {
            2 * self.cy - self.h
        } else {
            0
        }
    }

    /// Bottom edge in half-units: `cy + h/2`, computed exactly.
    pub open spec fn spec_bottom(self) -> int {
        2 * self.cy + self.h
    }

    /// The edge rectangle spanned by this detection, with edges below zero
    /// clamped to zero.
    pub fn to_envelope(&self) -> (r: MergedBox)
        ensures
            r.confidence == self.confidence,
            r.left == self.spec_left(),
            r.top == self.spec_top(),
            r.right == self.spec_right(),
            r.bottom == self.spec_bottom(),
    {
        let cx2: u64 = 2 * (self.cx as u64);
        let cy2: u64 = 2 * (self.cy as u64);
        MergedBox {
            confidence: self.confidence,
            left: if cx2 >= self.w as u64 {
                cx2 - self.w as u64
            } else {
                0
            },
            top: if cy2 >= self.h as u64 {
                cy2 - self.h as u64
            } else {
                0
            },
            right: cx2 + self.w as u64,
            bottom: cy2 + self.h as u64,
        }
    }
}

/// Two boxes overlap iff both have nonzero width and height and their edge
/// intervals strictly intersect on both axes; touching edges do not count.
pub open spec fn spec_overlaps(a: MergedBox, b: MergedBox) -> bool {
    &&& a.left < a.right
    &&& a.top < a.bottom
    &&& b.left < b.right
    &&& b.top < b.bottom
    &&& a.left < b.right
    &&& b.left < a.right
    &&& a.top < b.bottom
    &&& b.top < a.bottom
}

/// The union envelope of two boxes, with the arithmetic mean (rounded down)
/// of the two confidences.
pub open spec fn spec_merge(a: MergedBox, b: MergedBox) -> MergedBox {
    MergedBox {
        confidence: ((a.confidence + b.confidence) / 2) as u32,
        left: if a.left <= b.left {
            a.left
        } else {
            b.left
        },
        top: if a.top <= b.top {
            a.top
        } else {
            b.top
        },
        right: if a.right >= b.right {
            a.right
        } else {
            b.right
        },
        bottom: if a.bottom >= b.bottom {
            a.bottom
        } else {
            b.bottom
        },
    }
}

/// No two distinct boxes of the sequence overlap.
pub open spec fn pairwise_disjoint(s: Seq<MergedBox>) -> bool {
    forall|i: int, j: int|
        0 <= i < j < s.len() ==> !spec_overlaps(s[i], s[j])
}

impl MergedBox {
    pub fn overlaps(&self, other: &MergedBox) -> (r: bool)
        ensures
            r == spec_overlaps(*self, *other),
    {
        self.left < self.right && self.top < self.bottom && other.left < other.right
            && other.top < other.bottom && self.left < other.right && other.left < self.right
            && self.top < other.bottom && other.top < self.bottom
    }

    pub fn merge(&self, other: &MergedBox) -> (r: MergedBox)
        ensures
            r == spec_merge(*self, *other),
    {
        let mean: u64 = (self.confidence as u64 + other.confidence as u64) / 2;
        MergedBox {
            confidence: mean as u32,
            left: if self.left <= other.left {
                self.left
            } else {
                other.left
            },
            top: if self.top <= other.top {
                self.top
            } else {
                other.top
            },
            right: if self.right >= other.right {
                self.right
            } else {
                other.right
            },
            bottom: if self.bottom >= other.bottom {
                self.bottom
            } else {
                other.bottom
            },
        }
    }

    /// The box width in half-units; zero if the edges are inverted.
    pub open spec fn spec_width(self) -> int {
        if self.right >= self.left {
            self.right - self.left
        } else {
            0
        }
    }

    /// The box height in half-units; zero if the edges are inverted.
    pub open spec fn spec_height(self) -> int {
        if self.bottom >= self.top {
            self.bottom - self.top
        } else {
            0
        }
    }

    /// The pixel rectangle covered by this box in an image of the given size,
    /// floored and clamped to the image bounds.
    pub fn get_rect(&self, img_width: u32, img_height: u32) -> (r: PixelRect)
        ensures
            r.left == spec_to_pixels(self.left as int, img_width as int),
            r.top == spec_to_pixels(self.top as int, img_height as int),
            r.width == spec_to_pixels(self.spec_width(), img_width as int),
            r.height == spec_to_pixels(self.spec_height(), img_height as int),
    {
        let w: u64 = if self.right >= self.left {
            self.right - self.left
        } else {
            0
        };
        let h: u64 = if self.bottom >= self.top {
            self.bottom - self.top
        } else {
            0
        };
        PixelRect {
            left: to_pixels(self.left, img_width),
            top: to_pixels(self.top, img_height),
            width: to_pixels(w, img_width),
            height: to_pixels(h, img_height),
        }
    }
}

/// A half-unit fraction length scaled to a pixel dimension, floored, clamped
/// to the dimension.
pub open spec fn spec_to_pixels(half_units: int, dim: int) -> int {
    let px = half_units * dim / (2 * FRACTION_SCALE as int);
    if px <= dim {
        px
    } else {
        dim
    }
}

fn to_pixels(half_units: u64, dim: u32) -> (r: u32)
    ensures
        r == spec_to_pixels(half_units as int, dim as int),
{
    proof {
        assert((half_units as int) * (dim as int) <= (u64::MAX as int) * (u32::MAX as int))
            by (nonlinear_arith)
            requires
                half_units <= u64::MAX,
                dim <= u32::MAX,
        ;
    }
    let px: u128 = (half_units as u128) * (dim as u128) / (2 * FRACTION_SCALE as u128);
    if px <= dim as u128 {
        px as u32
    } else {
        dim
    }
}

/// One incoming box folded into the working set: every overlapping box of the
/// set is replaced in place by its union with the incoming box; if nothing
/// overlapped, the incoming box is appended.
pub open spec fn fold_box(combined: Seq<MergedBox>, next: MergedBox) -> Seq<MergedBox> {
    if exists|k: int| 0 <= k < combined.len() && spec_overlaps(next, combined[k]) {
        combined.map(
            |k: int, b: MergedBox|
                if spec_overlaps(next, b) {
                    spec_merge(b, next)
                } else {
                    b
                },
        )
    } else {
        combined.push(next)
    }
}

/// One full clustering pass: the boxes of `rest` folded into `combined` in
/// order; the boolean records whether any merge happened.
pub open spec fn do_pass(combined: Seq<MergedBox>, changed: bool, rest: Seq<MergedBox>) -> (
    Seq<MergedBox>,
    bool,
)
    decreases rest.len(),
{
    if rest.len() == 0 {
        (combined, changed)
    } else {
        let hit = exists|k: int| 0 <= k < combined.len() && spec_overlaps(rest[0], combined[k]);
        do_pass(fold_box(combined, rest[0]), changed || hit, rest.drop_first())
    }
}

/// The fixed point of the clustering pass: passes are repeated until one of
/// them performs no merge.
pub open spec fn spec_combine(s: Seq<MergedBox>) -> Seq<MergedBox>
    decreases s.len(),
    via spec_combine_decreases
{
    let (p, changed) = do_pass(Seq::empty(), false, s);
    if changed {
        spec_combine(p)
    } else {
        p
    }
}

/// A pass that merged something shrinks the set: each merged incoming box is
/// not appended.
proof fn lemma_do_pass_len(combined: Seq<MergedBox>, changed: bool, rest: Seq<MergedBox>)
    ensures
        do_pass(combined, changed, rest).0.len() + (if do_pass(combined, changed, rest).1
            && !changed {
            1int
        } else {
            0int
        }) <= combined.len() + rest.len(),
    decreases rest.len(),
{
    if rest.len() > 0 {
        let hit = exists|k: int| 0 <= k < combined.len() && spec_overlaps(rest[0], combined[k]);
        lemma_do_pass_len(fold_box(combined, rest[0]), changed || hit, rest.drop_first());
    }
}

#[via_fn]
proof fn spec_combine_decreases(s: Seq<MergedBox>) {
    lemma_do_pass_len(Seq::empty(), false, s);
}

/// Once a merge has happened, the pass stays marked as changed.
proof fn lemma_changed_sticky(combined: Seq<MergedBox>, rest: Seq<MergedBox>)
    ensures
        do_pass(combined, true, rest).1,
    decreases rest.len(),
{
    if rest.len() > 0 {
        lemma_changed_sticky(fold_box(combined, rest[0]), rest.drop_first());
    }
}

/// A pass that performed no merge appended every box unchanged, and a
/// disjoint working set stays pairwise disjoint.
proof fn lemma_pass_no_change(combined: Seq<MergedBox>, rest: Seq<MergedBox>)
    requires
        !do_pass(combined, false, rest).1,
    ensures
        do_pass(combined, false, rest).0 == combined + rest,
        pairwise_disjoint(combined) ==> pairwise_disjoint(combined + rest),
    decreases rest.len(),
{
    if rest.len() == 0 {
        assert(combined + rest =~= combined);
    } else {
        let hit = exists|k: int| 0 <= k < combined.len() && spec_overlaps(rest[0], combined[k]);
        if hit {
            lemma_changed_sticky(fold_box(combined, rest[0]), rest.drop_first());
        }
        lemma_pass_no_change(combined.push(rest[0]), rest.drop_first());
        assert(combined.push(rest[0]) + rest.drop_first() =~= combined + rest);
        if pairwise_disjoint(combined) {
            assert forall|i: int, j: int|
                0 <= i < j < combined.push(rest[0]).len() implies !spec_overlaps(
                combined.push(rest[0])[i],
                combined.push(rest[0])[j],
            ) by {
                if j == combined.len() {
                    assert(!spec_overlaps(rest[0], combined[i]));
                }
            }
        }
    }
}

/// On a pairwise-disjoint input the pass changes nothing.
proof fn lemma_pass_of_disjoint(combined: Seq<MergedBox>, rest: Seq<MergedBox>)
    requires
        pairwise_disjoint(combined + rest),
    ensures
        do_pass(combined, false, rest) == (combined + rest, false),
    decreases rest.len(),
{
    if rest.len() == 0 {
        assert(combined + rest =~= combined);
    } else {
        assert forall|k: int| 0 <= k < combined.len() implies !spec_overlaps(
            rest[0],
            combined[k],
        ) by {
            let s = combined + rest;
            assert(s[k] == combined[k]);
            assert(s[combined.len() as int] == rest[0]);
            assert(!spec_overlaps(s[k], s[combined.len() as int]));
        }
        assert(fold_box(combined, rest[0]) == combined.push(rest[0]));
        assert(combined.push(rest[0]) + rest.drop_first() =~= combined + rest);
        lemma_pass_of_disjoint(combined.push(rest[0]), rest.drop_first());
    }
}

/// The merged output is pairwise non-overlapping.
pub proof fn lemma_combine_disjoint(s: Seq<MergedBox>)
    ensures
        pairwise_disjoint(spec_combine(s)),
    decreases s.len(),
{
    let (p, changed) = do_pass(Seq::empty(), false, s);
    if changed {
        lemma_do_pass_len(Seq::empty(), false, s);
        lemma_combine_disjoint(p);
    } else {
        lemma_pass_no_change(Seq::empty(), s);
        assert(Seq::empty() + s =~= s);
    }
}

/// Two identical overlapping boxes merge into that one box: the union
/// envelope of a box with itself is the box, and the mean of two equal
/// confidences is that confidence.
pub proof fn lemma_identical_boxes_merge(b: MergedBox)
    requires
        spec_overlaps(b, b),
    ensures
        spec_merge(b, b) == b,
        spec_combine(seq![b, b]) == seq![b],
{
    let two = seq![b, b];
    let one = seq![b];
    assert(spec_merge(b, b) == b);
    // First pass: the first box is appended, the second merges into it.
    assert(two.drop_first() =~= seq![b]);
    assert(fold_box(Seq::empty(), two[0]) =~= one);
    assert(one[0] == b);
    assert(fold_box(one, b) =~= one) by {
        assert(one.map(
            |k: int, x: MergedBox|
                if spec_overlaps(b, x) {
                    spec_merge(x, b)
                } else {
                    x
                },
        ) =~= one);
    }
    assert(seq![b].drop_first() =~= Seq::<MergedBox>::empty());
    assert(do_pass(one, true, Seq::<MergedBox>::empty()) == (one, true));
    assert(do_pass(one, false, seq![b]) == (one, true));
    assert(do_pass(Seq::empty(), false, two) == (one, true));
    // Retry pass: a single box passes through unchanged.
    lemma_pass_of_disjoint(Seq::empty(), one);
    assert(Seq::empty() + one =~= one);
    assert(spec_combine(one) == one);
    assert(spec_combine(two) == one);
}

/// Merging is idempotent: re-merging a merged set is a no-op.
pub proof fn lemma_combine_idempotent(s: Seq<MergedBox>)
    ensures
        spec_combine(spec_combine(s)) == spec_combine(s),
{
    lemma_combine_disjoint(s);
    let t = spec_combine(s);
    assert(Seq::empty() + t =~= t);
    lemma_pass_of_disjoint(Seq::empty(), t);
}

/// Greedy clustering with fixed-point retry: boxes are folded into the output
/// set in input order, overlapping output boxes are replaced in place by
/// union envelopes, and the whole pass is re-run until a pass performs no
/// merge. The result is pairwise non-overlapping; a merged set is left as it
/// is; empty input yields empty output.
pub fn combine_overlapping_rects(boxes: Vec<MergedBox>) -> (r: Vec<MergedBox>)
    ensures
        r@ == spec_combine(boxes@),
        pairwise_disjoint(r@),
        boxes@.len() == 0 ==> r@.len() == 0,
{
    proof {
        lemma_combine_disjoint(boxes@);
    }
    let mut cur = boxes;
    loop
        invariant
            spec_combine(cur@) == spec_combine(boxes@),
            pairwise_disjoint(spec_combine(boxes@)),
        decreases cur@.len(),
    {
        let ghost pre = cur@;
        let (next, changed) = merge_pass(cur);
        if !changed {
            assert(next@ == spec_combine(pre));
            return next;
        }
        proof {
            lemma_do_pass_len(Seq::empty(), false, pre);
        }
        cur = next;
    }
}

/// One clustering pass over the whole input, as `do_pass` describes it.
fn merge_pass(boxes: Vec<MergedBox>) -> (res: (Vec<MergedBox>, bool))
    ensures
        res.0@ == do_pass(Seq::empty(), false, boxes@).0,
        res.1 == do_pass(Seq::empty(), false, boxes@).1,
{
    let mut combined: Vec<MergedBox> = Vec::new();
    let mut changed: bool = false;
    let n: usize = boxes.len();
    let mut i: usize = 0;
    proof {
        assert(boxes@.skip(0) =~= boxes@);
    }
    while i < n
        invariant
            n == boxes@.len(),
            i <= n,
            do_pass(combined@, changed, boxes@.skip(i as int)) == do_pass(
                Seq::empty(),
                false,
                boxes@,
            ),
        decreases n - i,
    {
        let next = boxes[i];
        let ghost pre = combined@;
        let ghost changed_pre = changed;
        let mut overlapped: bool = false;
        let m: usize = combined.len();
        let mut j: usize = 0;
        while j < m
            invariant
                m == pre.len(),
                j <= m,
                combined@.len() == pre.len(),
                forall|k: int|
                    0 <= k < j ==> combined@[k] == (if spec_overlaps(next, pre[k]) {
                        spec_merge(pre[k], next)
                    } else {
                        pre[k]
                    }),
                forall|k: int| j <= k < m ==> combined@[k] == pre[k],
                overlapped == exists|k: int| 0 <= k < j && spec_overlaps(next, pre[k]),
                changed == (changed_pre || overlapped),
            decreases m - j,
        {
            if next.overlaps(&combined[j]) {
                proof {
                    assert(spec_overlaps(next, pre[j as int]));
                }
                let merged = combined[j].merge(&next);
                combined.set(j, merged);
                overlapped = true;
                changed = true;
            } else {
                proof {
                    assert(!spec_overlaps(next, pre[j as int]));
                }
            }
            j += 1;
        }
        let ghost hit = exists|k: int| 0 <= k < pre.len() && spec_overlaps(next, pre[k]);
        proof {
            assert(overlapped == hit);
            if overlapped {
                assert(combined@ =~= fold_box(pre, next));
            } else {
                assert(combined@ =~= pre);
            }
        }
        if !overlapped {
            combined.push(next);
            proof {
                assert(combined@ =~= fold_box(pre, next));
            }
        }
        proof {
            let rest = boxes@.skip(i as int);
            assert(rest.len() > 0);
            assert(rest[0] == boxes@[i as int]);
            assert(rest.drop_first() =~= boxes@.skip(i as int + 1));
            assert(do_pass(pre, changed_pre, rest) == do_pass(
                fold_box(pre, rest[0]),
                changed_pre || hit,
                rest.drop_first(),
            ));
        }
        i += 1;
    }
    proof {
        assert(boxes@.skip(n as int) =~= Seq::<MergedBox>::empty());
    }
    (combined, changed)
}

/// Confidence filtering of raw detections: only boxes whose confidence lies
/// strictly above the threshold are kept, in input order.
pub fn filter_boxes_by_confidence(boxes: Vec<DetectedBox>, threshold: u32) -> (r: Vec<DetectedBox>)
    ensures
        r@ == boxes@.filter(|b: DetectedBox| b.confidence > threshold),
{
    let mut out: Vec<DetectedBox> = Vec::new();
    let n: usize = boxes.len();
    let mut i: usize = 0;
    while i < n
        invariant
            n == boxes@.len(),
            i <= n,
            out@ == boxes@.take(i as int).filter(|b: DetectedBox| b.confidence > threshold),
        decreases n - i,
    {
        let b = boxes[i];
        proof {
            reveal_with_fuel(Seq::filter, 2);
            assert(boxes@.take(i as int + 1).drop_last() =~= boxes@.take(i as int));
            assert(boxes@.take(i as int + 1).last() == boxes@[i as int]);
        }
        if b.confidence > threshold {
            out.push(b);
        }
        i += 1;
    }
    proof {
        assert(boxes@.take(n as int) =~= boxes@);
    }
    out
}

/// The detections turned into edge envelopes, in input order.
pub fn to_envelopes(boxes: &Vec<DetectedBox>) -> (r: Vec<MergedBox>)
    ensures
        r@.len() == boxes@.len(),
        forall|k: int|
            0 <= k < boxes@.len() ==> r@[k] == #[trigger] boxes@[k].to_envelope_spec(),
{
    let mut out: Vec<MergedBox> = Vec::new();
    let n: usize = boxes.len();
    let mut i: usize = 0;
    while i < n
        invariant
            n == boxes@.len(),
            i <= n,
            out@.len() == i,
            forall|k: int| 0 <= k < i ==> out@[k] == #[trigger] boxes@[k].to_envelope_spec(),
        decreases n - i,
    {
        out.push(boxes[i].to_envelope());
        i += 1;
    }
    out
}

impl DetectedBox {
    /// The envelope `to_envelope` returns, as a value.
    pub open spec fn to_envelope_spec(self) -> MergedBox {
        MergedBox {
            confidence: self.confidence,
            left: self.spec_left() as u64,
            top: self.spec_top() as u64,
            right: self.spec_right() as u64,
            bottom: self.spec_bottom() as u64,
        }
    }
}

} // verus!
