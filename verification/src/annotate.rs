//! Plan-view annotation layout: category colours, label placement with
//! collision avoidance, box and label rectangles, and category icons.

use vstd::prelude::*;

verus! {

/// Characters of `s` equal those of `t`.
fn str_eq(s: &str, t: &str) -> (r: bool)
    ensures
        r == (s@ == t@),
{
    let n = s.unicode_len();
    if n != t.unicode_len() {
        return false;
    }
    let mut i: usize = 0;
    while i < n
        invariant
            n == s@.len(),
            n == t@.len(),
            i <= n,
            forall|j: int| 0 <= j < i ==> s@[j] == t@[j],
        decreases n - i,
    {
        if s.get_char(i) != t.get_char(i) {
            return false;
        }
        i = i + 1;
    }
    proof {
        assert(s@ =~= t@);
    }
    true
}

/// Display colour of a feature category.
pub open spec fn category_rgb(category: Seq<char>) -> [u8; 3] {
    if category == "tree"@ || category == "planting"@ {
        [34u8, 197u8, 94u8]
    } else if category == "structure"@ {
        [107u8, 114u8, 128u8]
    } else if category == "hardscape"@ {
        [217u8, 119u8, 6u8]
    } else if category == "utility"@ {
        [239u8, 68u8, 68u8]
    } else {
        [156u8, 163u8, 175u8]
    }
}

/// Map a category string to its display colour (RGB).
pub fn category_color(category: &str) -> (c: [u8; 3])
    ensures
        c == category_rgb(category@),
{
    if str_eq(category, "tree") || str_eq(category, "planting") {
        [34, 197, 94]
    } else if str_eq(category, "structure") {
        [107, 114, 128]
    } else if str_eq(category, "hardscape") {
        [217, 119, 6]
    } else if str_eq(category, "utility") {
        [239, 68, 68]
    } else {
        [156, 163, 175]
    }
}

/// Darker version of a colour for label backgrounds: each channel halved
/// (rounded down).
pub fn darken_color(color: [u8; 3]) -> (d: [u8; 3])
    ensures
        d[0] == color[0] / 2,
        d[1] == color[1] / 2,
        d[2] == color[2] / 2,
{
    [color[0] / 2, color[1] / 2, color[2] / 2]
}

/// `v` limited to `[lo, hi]` (for `lo <= hi`).
pub open spec fn clamp_int(v: int, lo: int, hi: int) -> int {
    if v < lo { lo } else if v > hi { hi } else { v }
}

/// A label at `(x, y)` of size `w`×`h` overlaps one of the placed label
/// rectangles `(x1, y1, x2, y2)`.
pub open spec fn overlaps_any(placed: Seq<(i32, i32, i32, i32)>, x: int, y: int, w: int, h: int) -> bool {
    exists|i: int| 0 <= i < placed.len() && x < (#[trigger] placed[i]).2 && x + w > placed[i].0
        && y < placed[i].3 && y + h > placed[i].1
}

/// Vertical position after moving the label down by `h + 4` while it
/// overlaps a placed label, at most `tries` times.
pub open spec fn shifted_y(placed: Seq<(i32, i32, i32, i32)>, x: int, y: int, w: int, h: int, tries: nat) -> int
    decreases tries,
{
    if tries == 0 || !overlaps_any(placed, x, y, w, h) {
        y
    } else {
        shifted_y(placed, x, y + h + 4, w, h, (tries - 1) as nat)
    }
}

/// Label position: `x` kept inside the image, `y` moved down past overlapping
/// labels (up to five times) and then kept inside the image.
pub open spec fn label_position(
    default_x: int,
    default_y: int,
    label_w: int,
    label_h: int,
    placed: Seq<(i32, i32, i32, i32)>,
    img_w: int,
    img_h: int,
) -> (int, int) {
    let x = label_x(default_x, label_w, img_w);
    let y = shifted_y(placed, x, default_y, label_w, label_h, 5);
    (x, clamp_int(y, 0, if img_h - label_h > 0 { img_h - label_h } else { 0 }))
}

/// The `i32` that a `u32` value becomes under `as` (two's complement).
pub open spec fn as_i32(v: int) -> int {
    if v > i32::MAX { v - 0x1_0000_0000 } else { v }
}

/// The `u32` that an `i32` value becomes under `as` (two's complement).
pub open spec fn as_u32(v: int) -> int {
    if v < 0 { v + 0x1_0000_0000 } else { v }
}

/// `v as i32`, computed without truncating arithmetic.
fn u32_to_i32(v: u32) -> (r: i32)
    ensures
        r as int == as_i32(v as int),
{
    if v <= 0x7fff_ffff { v as i32 } else { (v as i64 - 0x1_0000_0000) as i32 }
}

/// `v as u32`, computed without truncating arithmetic.
fn i32_to_u32(v: i32) -> (r: u32)
    ensures
        r as int == as_u32(v as int),
{
    if v >= 0 { v as u32 } else { (v as i64 + 0x1_0000_0000) as u32 }
}

/// Column of a label of width `label_w` requested at `default_x`, kept
/// inside an image `img_w` wide.
pub open spec fn label_x(default_x: int, label_w: int, img_w: int) -> int {
    clamp_int(default_x, 0, if img_w - label_w > 0 { img_w - label_w } else { 0 })
}

/// The overlap test of a label at `(x, y)` of size `w`×`h` against `placed`,
/// which goes entry by entry and stops at the first overlap, computes the
/// label's bottom edge `y + h` within `i32`: it computes it for an entry
/// whose right edge lies right of `x`, whose left edge lies left of `x + w`
/// and whose bottom lies below `y`.
pub open spec fn overlap_test_in_range(placed: Seq<(i32, i32, i32, i32)>, x: int, y: int, w: int, h: int) -> bool
    decreases placed.len(),
{
    if placed.len() == 0 {
        true
    } else {
        let p = placed[0];
        let reaches = x < p.2 && x + w > p.0 && y < p.3;
        &&& (reaches ==> i32::MIN <= y + h <= i32::MAX)
        &&& (!(reaches && y + h > p.1) ==> overlap_test_in_range(placed.drop_first(), x, y, w, h))
    }
}

/// The collision search from `(x, y)`, with `tries` moves left, computes
/// only values within `i32`: each overlap test it makes, and each move down
/// by `h + 4` that follows an overlap.
pub open spec fn label_search_in_range(placed: Seq<(i32, i32, i32, i32)>, x: int, y: int, w: int, h: int, tries: nat) -> bool
    decreases tries,
{
    tries == 0 || {
        &&& overlap_test_in_range(placed, x, y, w, h)
        &&& overlaps_any(placed, x, y, w, h) ==> {
            &&& h + 4 <= i32::MAX
            &&& i32::MIN <= y + (h + 4) <= i32::MAX
            &&& label_search_in_range(placed, x, y + h + 4, w, h, (tries - 1) as nat)
        }
    }
}

fn overlaps(placed: &[(i32, i32, i32, i32)], x: i32, y: i32, w: i32, h: i32) -> (r: bool)
    requires
        i32::MIN <= x + w <= i32::MAX,
        overlap_test_in_range(placed@, x as int, y as int, w as int, h as int),
    ensures
        r == overlaps_any(placed@, x as int, y as int, w as int, h as int),
{
    let mut i: usize = 0;
    proof {
        assert(placed@.skip(0) =~= placed@);
    }
    while i < placed.len()
        invariant
            i <= placed@.len(),
            i32::MIN <= x + w <= i32::MAX,
            overlap_test_in_range(placed@.skip(i as int), x as int, y as int, w as int, h as int),
            forall|j: int| 0 <= j < i ==> !(x < (#[trigger] placed@[j]).2 && x + w > placed@[j].0
                && y < placed@[j].3 && y + h > placed@[j].1),
        decreases placed@.len() - i,
    {
        let ghost rest = placed@.skip(i as int);
        assert(rest[0] == placed@[i as int]);
        let (px1, py1, px2, py2) = placed[i];
        if x < px2 && (x + w) > px1 && y < py2 && (y + h) > py1 {
            proof {
                assert(x < placed@[i as int].2 && x + w > placed@[i as int].0 && y < placed@[i as int].3
                    && y + h > placed@[i as int].1);
            }
            return true;
        }
        proof {
            assert(rest.drop_first() =~= placed@.skip(i + 1));
        }
        i = i + 1;
    }
    false
}

/// Resolve label position with collision avoidance.
/// Shifts the label down if it overlaps previously placed labels (up to 5 attempts).
/// The image sizes take part as signed 32-bit values (`as i32`).
pub fn resolve_label_position(
    default_x: i32,
    default_y: i32,
    label_w: i32,
    label_h: i32,
    placed: &[(i32, i32, i32, i32)],
    img_w: u32,
    img_h: u32,
) -> (r: (i32, i32))
    requires
        i32::MIN <= as_i32(img_w as int) - label_w <= i32::MAX,
        i32::MIN <= as_i32(img_h as int) - label_h <= i32::MAX,
        label_search_in_range(placed@, label_x(default_x as int, label_w as int, as_i32(img_w as int)), default_y as int,
            label_w as int, label_h as int, 5),
    ensures
        r.0 as int == label_position(default_x as int, default_y as int, label_w as int, label_h as int, placed@,
            as_i32(img_w as int), as_i32(img_h as int)).0,
        r.1 as int == label_position(default_x as int, default_y as int, label_w as int, label_h as int, placed@,
            as_i32(img_w as int), as_i32(img_h as int)).1,
{
    let width = u32_to_i32(img_w);
    let height = u32_to_i32(img_h);
    let w_room = width - label_w;
    let x_max = if w_room > 0 { w_room } else { 0 };
    let x = if default_x < 0 { 0 } else if default_x > x_max { x_max } else { default_x };
    let mut y = default_y;
    let mut tries: u32 = 0;
    while tries < 5
        invariant
            tries <= 5,
            0 <= x <= x_max,
            x_max == (if width - label_w > 0 { width - label_w } else { 0 }),
            label_search_in_range(placed@, x as int, y as int, label_w as int, label_h as int, (5 - tries) as nat),
            shifted_y(placed@, x as int, default_y as int, label_w as int, label_h as int, 5)
                == shifted_y(placed@, x as int, y as int, label_w as int, label_h as int, (5 - tries) as nat),
        ensures
            shifted_y(placed@, x as int, default_y as int, label_w as int, label_h as int, 5) == y,
        decreases 5 - tries,
    {
        if !overlaps(placed, x, y, label_w, label_h) {
            break;
        }
        y = y + (label_h + 4);
        tries = tries + 1;
    }
    let h_room = height - label_h;
    let y_max = if h_room > 0 { h_room } else { 0 };
    let y = if y < 0 { 0 } else if y > y_max { y_max } else { y };
    (x, y)
}

} // verus!

verus! {

/// Height of a label after `j` moves down by `h + 4` from `y`.
pub open spec fn moved_y(y: int, h: int, j: int) -> int {
    y + j * (h + 4)
}

proof fn search_moves(placed: Seq<(i32, i32, i32, i32)>, x: int, y: int, w: int, h: int, tries: nat) -> (k: int)
    ensures
        0 <= k <= tries,
        shifted_y(placed, x, y, w, h, tries) == moved_y(y, h, k),
        forall|j: int| 0 <= j < k ==> exists|i: int| 0 <= i < placed.len()
            && x < (#[trigger] placed[i]).2 && x + w > placed[i].0
            && #[trigger] moved_y(y, h, j) < placed[i].3 && moved_y(y, h, j) + h > placed[i].1,
        k < tries ==> forall|i: int| 0 <= i < placed.len() ==> !(x < (#[trigger] placed[i]).2 && x + w > placed[i].0
            && moved_y(y, h, k) < placed[i].3 && moved_y(y, h, k) + h > placed[i].1),
    decreases tries,
{
    assert(moved_y(y, h, 0) == y) by (nonlinear_arith);
    if tries == 0 || !overlaps_any(placed, x, y, w, h) {
        0
    } else {
        let k1 = search_moves(placed, x, y + h + 4, w, h, (tries - 1) as nat);
        assert forall|j: int| #[trigger] moved_y(y + h + 4, h, j) == moved_y(y, h, j + 1) by {
            assert(y + h + 4 + j * (h + 4) == y + (j + 1) * (h + 4)) by (nonlinear_arith);
        }
        assert(moved_y(y + h + 4, h, k1) == moved_y(y, h, k1 + 1));
        assert forall|j: int| 0 <= j < k1 + 1 implies exists|i: int| 0 <= i < placed.len()
            && x < (#[trigger] placed[i]).2 && x + w > placed[i].0
            && #[trigger] moved_y(y, h, j) < placed[i].3 && moved_y(y, h, j) + h > placed[i].1 by {
            if j == 0 {
                let i = choose|i: int| 0 <= i < placed.len() && x < (#[trigger] placed[i]).2 && x + w > placed[i].0
                    && y < placed[i].3 && y + h > placed[i].1;
                assert(moved_y(y, h, j) == y);
            } else {
                assert(moved_y(y + h + 4, h, j - 1) == moved_y(y, h, j));
                let i = choose|i: int| 0 <= i < placed.len()
                    && x < (#[trigger] placed[i]).2 && x + w > placed[i].0
                    && #[trigger] moved_y(y + h + 4, h, j - 1) < placed[i].3 && moved_y(y + h + 4, h, j - 1) + h > placed[i].1;
                assert(0 <= i < placed.len());
            }
        }
        k1 + 1
    }
}

/// The collision search moves a label only past labels it meets: a placed
/// rectangle `(x1, y1, x2, y2)` stops the label at `(x, y)` of size `w`×`h`
/// only when the two rectangles intersect in both axes (`x < x2`,
/// `x + w > x1`, `y < y2`, `y + h > y1`). After the search the label has
/// moved down by `h + 4` some `k` times, at most `tries`; it met a placed
/// rectangle at each height it left, and unless all tries were used it meets
/// none at the height it stops at. In particular a label that meets no placed
/// rectangle horizontally, or none vertically, stays where it is.
pub proof fn label_moves_only_past_labels_it_meets(placed: Seq<(i32, i32, i32, i32)>, x: int, y: int, w: int, h: int, tries: nat)
    ensures
        exists|k: int| {
            &&& 0 <= k <= tries
            &&& shifted_y(placed, x, y, w, h, tries) == #[trigger] moved_y(y, h, k)
            &&& forall|j: int| 0 <= j < k ==> exists|i: int| 0 <= i < placed.len()
                && x < (#[trigger] placed[i]).2 && x + w > placed[i].0
                && #[trigger] moved_y(y, h, j) < placed[i].3 && moved_y(y, h, j) + h > placed[i].1
            &&& k < tries ==> forall|i: int| 0 <= i < placed.len() ==> !(x < (#[trigger] placed[i]).2 && x + w > placed[i].0
                && moved_y(y, h, k) < placed[i].3 && moved_y(y, h, k) + h > placed[i].1)
        },
        (forall|i: int| 0 <= i < placed.len() ==> !(x < (#[trigger] placed[i]).2 && x + w > placed[i].0))
            ==> shifted_y(placed, x, y, w, h, tries) == y,
        (forall|i: int| 0 <= i < placed.len() ==> !(y < (#[trigger] placed[i]).3 && y + h > placed[i].1))
            ==> shifted_y(placed, x, y, w, h, tries) == y,
{
    let k = search_moves(placed, x, y, w, h, tries);
    assert(moved_y(y, h, 0) == y) by (nonlinear_arith);
    if k > 0 {
        assert(exists|i: int| 0 <= i < placed.len()
            && x < (#[trigger] placed[i]).2 && x + w > placed[i].0
            && #[trigger] moved_y(y, h, 0) < placed[i].3 && moved_y(y, h, 0) + h > placed[i].1);
    }
}

/// A label that meets no placed label horizontally at its column keeps its
/// requested height, kept inside the image.
pub proof fn label_beside_placed_keeps_height(
    default_x: int,
    default_y: int,
    label_w: int,
    label_h: int,
    placed: Seq<(i32, i32, i32, i32)>,
    img_w: int,
    img_h: int,
)
    requires
        forall|i: int| 0 <= i < placed.len() ==> !(label_x(default_x, label_w, img_w) < (#[trigger] placed[i]).2
            && label_x(default_x, label_w, img_w) + label_w > placed[i].0),
    ensures
        label_position(default_x, default_y, label_w, label_h, placed, img_w, img_h)
            == (label_x(default_x, label_w, img_w), clamp_int(default_y, 0, if img_h - label_h > 0 { img_h - label_h } else { 0 })),
{
    label_moves_only_past_labels_it_meets(placed, label_x(default_x, label_w, img_w), default_y, label_w, label_h, 5);
}

/// After the collision search the label either overlaps no placed label or
/// has been moved down the full five times.
pub proof fn lemma_label_search_outcome(placed: Seq<(i32, i32, i32, i32)>, x: int, y: int, w: int, h: int)
    ensures
        !overlaps_any(placed, x, shifted_y(placed, x, y, w, h, 5), w, h)
            || shifted_y(placed, x, y, w, h, 5) == y + 5 * (h + 4),
{
    reveal_with_fuel(shifted_y, 6);
}

/// The resolved label position lies inside the image: `0 <= x <= max(img_w - w, 0)`
/// and `0 <= y <= max(img_h - h, 0)`; with no label placed yet it is the
/// default position kept inside the image.
pub proof fn lemma_label_position_inside(
    default_x: int,
    default_y: int,
    label_w: int,
    label_h: int,
    placed: Seq<(i32, i32, i32, i32)>,
    img_w: int,
    img_h: int,
)
    ensures
        ({
            let (x, y) = label_position(default_x, default_y, label_w, label_h, placed, img_w, img_h);
            &&& 0 <= x && (x <= img_w - label_w || x == 0)
            &&& 0 <= y && (y <= img_h - label_h || y == 0)
        }),
        placed.len() == 0 ==> label_position(default_x, default_y, label_w, label_h, placed, img_w, img_h)
            == (clamp_int(default_x, 0, if img_w - label_w > 0 { img_w - label_w } else { 0 }),
                clamp_int(default_y, 0, if img_h - label_h > 0 { img_h - label_h } else { 0 })),
{
    let x = clamp_int(default_x, 0, if img_w - label_w > 0 { img_w - label_w } else { 0 });
    if placed.len() == 0 {
        assert(!overlaps_any(placed, x, default_y, label_w, label_h));
    }
}

} // verus!

verus! {

/// Integer division rounding toward zero, as Rust's `/` on signed integers.
pub open spec fn div_toward_zero(a: int, b: int) -> int {
    if a >= 0 { a / b } else { -((-a) / b) }
}

/// `a - b`, or 0 when `b > a`.
pub open spec fn saturating_sub_int(a: int, b: int) -> int {
    if a > b { a - b } else { 0 }
}

/// On-image rectangle of a feature's bounding box, from its pixel corner
/// `(px, py)` and pixel extent `span_w`×`span_h`: the corner moved inside
/// the image and the extent at least one pixel and no wider than what is
/// left of the image.
#[derive(Debug, Clone, Copy, PartialEq, Eq, Structural)]
pub struct BoxRect {
    pub x: i32,
    pub y: i32,
    pub w: u32,
    pub h: u32,
}

/// Rectangle of a feature box on an `img_w`×`img_h` image.
pub fn clip_box(px: i32, py: i32, span_w: u32, span_h: u32, img_w: u32, img_h: u32) -> (r: BoxRect)
    ensures
        r.x as int == (if px > 0 { px as int } else { 0 }),
        r.y as int == (if py > 0 { py as int } else { 0 }),
        r.w as int == spec_min_int(if span_w > 1 { span_w as int } else { 1 }, saturating_sub_int(img_w as int, r.x as int)),
        r.h as int == spec_min_int(if span_h > 1 { span_h as int } else { 1 }, saturating_sub_int(img_h as int, r.y as int)),
{
    let x = if px > 0 { px } else { 0 };
    let y = if py > 0 { py } else { 0 };
    let w0 = if span_w > 1 { span_w } else { 1 };
    let h0 = if span_h > 1 { span_h } else { 1 };
    let w_room = img_w.saturating_sub(x as u32);
    let h_room = img_h.saturating_sub(y as u32);
    BoxRect { x, y, w: if w0 < w_room { w0 } else { w_room }, h: if h0 < h_room { h0 } else { h_room } }
}

/// The smaller of two integers.
pub open spec fn spec_min_int(a: int, b: int) -> int {
    if a <= b { a } else { b }
}

/// `rect` shrunk by `t` pixels on every side.
pub open spec fn inset_rect(rect: BoxRect, t: int) -> BoxRect {
    BoxRect { x: (rect.x + t) as i32, y: (rect.y + t) as i32, w: (rect.w - 2 * t) as u32, h: (rect.h - 2 * t) as u32 }
}

/// The box is wider and taller than `2 * t`, so it can be inset by `t`.
pub open spec fn inset_fits(rect: BoxRect, t: int) -> bool {
    rect.w > 2 * t && rect.h > 2 * t
}

/// The outline rectangles for the first `n` pixels of thickness: for each
/// inset `t < n` in order, the rectangle inset by `t` when the box is wider
/// and taller than `2 * t`.
pub open spec fn outline_seq(rect: BoxRect, n: nat) -> Seq<BoxRect>
    decreases n,
{
    if n == 0 {
        Seq::empty()
    } else {
        let t = (n - 1) as int;
        let before = outline_seq(rect, (n - 1) as nat);
        if rect.w > 2 * t && rect.h > 2 * t {
            before.push(inset_rect(rect, t))
        } else {
            before
        }
    }
}

/// Rectangles of a box outline `line_width` pixels thick: one hollow
/// rectangle per pixel of thickness, inset by that many pixels, while the
/// box is wider and taller than twice the inset. Each thickness is doubled
/// in `u32`, and each inset corner that is drawn is computed in `i32`.
pub fn outline_rects(rect: BoxRect, line_width: u32) -> (r: Vec<BoxRect>)
    requires
        2 * (line_width - 1) <= u32::MAX,
        forall|t: int| 0 <= t < line_width && #[trigger] inset_fits(rect, t)
            ==> rect.x + t <= i32::MAX && rect.y + t <= i32::MAX,
    ensures
        r@ == outline_seq(rect, line_width as nat),
{
    let mut r: Vec<BoxRect> = Vec::new();
    let mut t: u32 = 0;
    while t < line_width
        invariant
            t <= line_width,
            forall|t: int| 0 <= t < line_width && #[trigger] inset_fits(rect, t)
                ==> rect.x + t <= i32::MAX && rect.y + t <= i32::MAX,
            r@ == outline_seq(rect, t as nat),
        decreases line_width - t,
    {
        if (rect.w as u64) > 2 * (t as u64) && (rect.h as u64) > 2 * (t as u64) {
            assert(inset_fits(rect, t as int));
            let inset = t as i32;
            r.push(BoxRect { x: rect.x + inset, y: rect.y + inset, w: rect.w - 2 * t, h: rect.h - 2 * t });
        }
        t = t + 1;
    }
    r
}

/// Every outline rectangle is the box inset by some `t < n`, and there are
/// at most `n` of them; an inset that fits is among them.
pub proof fn lemma_outline_members(rect: BoxRect, n: nat)
    ensures
        outline_seq(rect, n).len() <= n,
        forall|k: int| 0 <= k < outline_seq(rect, n).len() ==>
            exists|t: int| 0 <= t < n && #[trigger] outline_seq(rect, n)[k] == inset_rect(rect, t),
        forall|t: int| 0 <= t < n && rect.w > 2 * t && rect.h > 2 * t ==>
            outline_seq(rect, n).contains(#[trigger] inset_rect(rect, t)),
    decreases n,
{
    if n > 0 {
        let m = (n - 1) as nat;
        lemma_outline_members(rect, m);
        let before = outline_seq(rect, m);
        let now = outline_seq(rect, n);
        assert forall|k: int| 0 <= k < now.len() implies
            exists|t: int| 0 <= t < n && #[trigger] now[k] == inset_rect(rect, t) by {
            if k < before.len() {
                assert(now[k] == before[k]);
                let t = choose|t: int| 0 <= t < m && #[trigger] before[k] == inset_rect(rect, t);
                assert(now[k] == inset_rect(rect, t));
            } else {
                assert(now[k] == inset_rect(rect, m as int));
            }
        }
        assert forall|t: int| 0 <= t < n && rect.w > 2 * t && rect.h > 2 * t implies
            now.contains(#[trigger] inset_rect(rect, t)) by {
            if t < m {
                assert(before.contains(inset_rect(rect, t)));
                let w = choose|w: int| 0 <= w < before.len() && before[w] == inset_rect(rect, t);
                assert(now[w] == before[w]);
            } else {
                assert(now[now.len() - 1] == inset_rect(rect, t));
            }
        }
    }
}

/// Where one feature's label goes: its size, the requested position above
/// the box, the resolved position, and the background rectangle drawn.
#[derive(Debug, Clone, Copy, PartialEq, Eq, Structural)]
pub struct LabelPlacement {
    pub w: i32,
    pub h: i32,
    pub x: i32,
    pub y: i32,
    pub background: BoxRect,
}

/// The arithmetic of placing a label stays within `i32`: the character
/// count converts exactly (padding, box width and image sizes convert as
/// `as i32` does), the label's
/// width and height, the room beside it in the box, its default corner, and
/// the label search from there are all representable.
pub open spec fn label_placement_in_range(
    placed: Seq<(i32, i32, i32, i32)>,
    rect: BoxRect,
    text_len: int,
    char_width: int,
    font_px: int,
    padding: int,
    img_w: int,
    img_h: int,
) -> bool {
    let pad = as_i32(padding);
    let text_w = text_len * char_width;
    let label_w = text_w + 2 * pad;
    let label_h = font_px + 2 * pad;
    let half = div_toward_zero(as_i32(rect.w as int) - label_w, 2);
    &&& text_len <= i32::MAX
    &&& i32::MIN <= text_w <= i32::MAX
    &&& i32::MIN <= 2 * pad <= i32::MAX
    &&& i32::MIN <= label_w <= i32::MAX
    &&& i32::MIN <= label_h <= i32::MAX
    &&& i32::MIN <= as_i32(rect.w as int) - label_w <= i32::MAX
    &&& i32::MIN <= rect.x + half <= i32::MAX
    &&& i32::MIN <= rect.y - label_h <= i32::MAX
    &&& i32::MIN <= rect.y - label_h - 2 <= i32::MAX
    &&& i32::MIN <= as_i32(img_w) - label_w <= i32::MAX
    &&& i32::MIN <= as_i32(img_h) - label_h <= i32::MAX
    &&& label_search_in_range(placed, label_x(rect.x + half, label_w, as_i32(img_w)), rect.y - label_h - 2, label_w, label_h, 5)
}

/// Place the label of a box: `text_len` characters of `char_width` pixels and
/// a line of `font_px` pixels, padded by `padding` on every side, centred
/// above the box two pixels off it, moved past the labels already placed and
/// kept inside the image; its background is the part inside the image. Sizes
/// convert between `u32` and `i32` as `as` does, so a negative label width
/// counts as its two's-complement `u32` value against the room left.
pub fn place_label(
    rect: BoxRect,
    text_len: usize,
    char_width: i32,
    font_px: i32,
    padding: u32,
    placed: &[(i32, i32, i32, i32)],
    img_w: u32,
    img_h: u32,
) -> (p: LabelPlacement)
    requires
        label_placement_in_range(placed@, rect, text_len as int, char_width as int, font_px as int, padding as int,
            img_w as int, img_h as int),
    ensures
        p.w == text_len * char_width + 2 * as_i32(padding as int),
        p.h == font_px + 2 * as_i32(padding as int),
        p.x as int == label_position(rect.x + div_toward_zero(as_i32(rect.w as int) - p.w, 2), rect.y - p.h - 2,
            p.w as int, p.h as int, placed@, as_i32(img_w as int), as_i32(img_h as int)).0,
        p.y as int == label_position(rect.x + div_toward_zero(as_i32(rect.w as int) - p.w, 2), rect.y - p.h - 2,
            p.w as int, p.h as int, placed@, as_i32(img_w as int), as_i32(img_h as int)).1,
        p.background.x as int == (if p.x > 0 { p.x as int } else { 0 }),
        p.background.y as int == (if p.y > 0 { p.y as int } else { 0 }),
        p.background.w as int == spec_min_int(as_u32(p.w as int), saturating_sub_int(img_w as int, p.background.x as int)),
        p.background.h as int == spec_min_int(as_u32(p.h as int), saturating_sub_int(img_h as int, p.background.y as int)),
{
    let pad = u32_to_i32(padding);
    let label_w = (text_len as i32) * char_width + pad * 2;
    let label_h = font_px + pad * 2;
    let spare = u32_to_i32(rect.w) - label_w;
    let half = if spare >= 0 { spare / 2 } else { -((-(spare as i64)) / 2) as i32 };
    let default_x = rect.x + half;
    let default_y = rect.y - label_h - 2;
    let (label_x, label_y) = resolve_label_position(default_x, default_y, label_w, label_h, placed, img_w, img_h);
    let bg_x = if label_x > 0 { label_x } else { 0 };
    let bg_y = if label_y > 0 { label_y } else { 0 };
    let w_room = img_w.saturating_sub(bg_x as u32);
    let h_room = img_h.saturating_sub(bg_y as u32);
    let label_w_bits = i32_to_u32(label_w);
    let label_h_bits = i32_to_u32(label_h);
    let bg_w = if label_w_bits < w_room { label_w_bits } else { w_room };
    let bg_h = if label_h_bits < h_room { label_h_bits } else { h_room };
    LabelPlacement {
        w: label_w,
        h: label_h,
        x: label_x,
        y: label_y,
        background: BoxRect { x: bg_x, y: bg_y, w: bg_w, h: bg_h },
    }
}

} // verus!

verus! {

/// Shape of the icon drawn at a feature's centroid.
#[derive(Debug, Clone, Copy, PartialEq, Eq, Structural)]
pub enum IconShape {
    /// Filled circle of radius 5 (trees and planting).
    Circle,
    /// Filled square reaching 4 pixels each way (structures and hardscape).
    Square,
    /// Filled diamond reaching 4 pixels each way (everything else).
    Diamond,
}

/// Icon shape of a category.
pub open spec fn icon_shape_of(category: Seq<char>) -> IconShape {
    if category == "tree"@ || category == "planting"@ {
        IconShape::Circle
    } else if category == "structure"@ || category == "hardscape"@ {
        IconShape::Square
    } else {
        IconShape::Diamond
    }
}

/// Icon shape for a category string.
pub fn icon_shape(category: &str) -> (s: IconShape)
    ensures
        s == icon_shape_of(category@),
{
    if str_eq(category, "tree") || str_eq(category, "planting") {
        IconShape::Circle
    } else if str_eq(category, "structure") || str_eq(category, "hardscape") {
        IconShape::Square
    } else {
        IconShape::Diamond
    }
}

/// How far the shape reaches from its centre along each axis.
pub open spec fn icon_reach(shape: IconShape) -> int {
    match shape {
        IconShape::Circle => 5,
        _ => 4,
    }
}

/// The offset `(dx, dy)` from the centre is part of the shape.
pub open spec fn in_icon(shape: IconShape, dx: int, dy: int) -> bool {
    let r = icon_reach(shape);
    &&& -r <= dx <= r
    &&& -r <= dy <= r
    &&& match shape {
        IconShape::Circle => dx * dx + dy * dy <= 25,
        IconShape::Square => true,
        IconShape::Diamond => (if dx < 0 { -dx } else { dx }) + (if dy < 0 { -dy } else { dy }) <= 4,
    }
}

/// Pixel `(x, y)` is painted for an icon centred at `(cx, cy)` on a
/// `w`×`h` image: it belongs to the shape and lies inside the image.
pub open spec fn icon_pixel(shape: IconShape, cx: int, cy: int, w: int, h: int, x: int, y: int) -> bool {
    &&& in_icon(shape, x - cx, y - cy)
    &&& 0 <= x < w
    &&& 0 <= y < h
}

/// Pixel `(ax, ay)` comes before pixel `(bx, by)` in row-major order.
pub open spec fn row_major_lt(ax: int, ay: int, bx: int, by: int) -> bool {
    ay < by || (ay == by && ax < bx)
}

/// Offset `(dx, dy)` is part of the shape (executable form of `in_icon`).
fn offset_in_icon(shape: IconShape, dx: i32, dy: i32) -> (b: bool)
    requires
        -5 <= dx <= 5,
        -5 <= dy <= 5,
    ensures
        b == in_icon(shape, dx as int, dy as int),
{
    assert(0 <= dx * dx <= 25 && 0 <= dy * dy <= 25) by (nonlinear_arith)
        requires
            -5 <= dx <= 5,
            -5 <= dy <= 5,
    ;
    match shape {
        IconShape::Circle => dx * dx + dy * dy <= 25,
        IconShape::Square => -4 <= dx && dx <= 4 && -4 <= dy && dy <= 4,
        IconShape::Diamond => {
            let ax = if dx < 0 { -dx } else { dx };
            let ay = if dy < 0 { -dy } else { dy };
            -4 <= dx && dx <= 4 && -4 <= dy && dy <= 4 && ax + ay <= 4
        },
    }
}

/// Pixels painted for the category icon centred at `(cx, cy)` on an
/// `img_w`×`img_h` image, in row-major order: exactly the pixels of the
/// shape that fall inside the image, each once.
pub fn icon_pixels(shape: IconShape, cx: i32, cy: i32, img_w: i32, img_h: i32) -> (r: Vec<(i32, i32)>)
    requires
        i32::MIN + 5 <= cx <= i32::MAX - 5,
        i32::MIN + 5 <= cy <= i32::MAX - 5,
    ensures
        forall|i: int| 0 <= i < r@.len() ==>
            icon_pixel(shape, cx as int, cy as int, img_w as int, img_h as int, (#[trigger] r@[i]).0 as int, r@[i].1 as int),
        forall|x: i32, y: i32| icon_pixel(shape, cx as int, cy as int, img_w as int, img_h as int, x as int, y as int)
            ==> #[trigger] r@.contains((x, y)),
        forall|i: int, j: int| 0 <= i < j < r@.len() ==> row_major_lt(r@[i].0 as int, r@[i].1 as int, r@[j].0 as int, r@[j].1 as int),
{
    let reach: i32 = match shape {
        IconShape::Circle => 5,
        _ => 4,
    };
    let mut r: Vec<(i32, i32)> = Vec::new();
    let mut dy: i32 = -reach;
    while dy <= reach
        invariant
            reach == icon_reach(shape),
            -reach <= dy <= reach + 1,
            i32::MIN + 5 <= cx <= i32::MAX - 5,
            i32::MIN + 5 <= cy <= i32::MAX - 5,
            forall|i: int| 0 <= i < r@.len() ==>
                icon_pixel(shape, cx as int, cy as int, img_w as int, img_h as int, (#[trigger] r@[i]).0 as int, r@[i].1 as int)
                && r@[i].1 < cy + dy,
            forall|x: i32, y: i32| icon_pixel(shape, cx as int, cy as int, img_w as int, img_h as int, x as int, y as int)
                && y < cy + dy ==> #[trigger] r@.contains((x, y)),
            forall|i: int, j: int| 0 <= i < j < r@.len() ==> row_major_lt(r@[i].0 as int, r@[i].1 as int, r@[j].0 as int, r@[j].1 as int),
        decreases reach + 1 - dy,
    {
        let mut dx: i32 = -reach;
        while dx <= reach
            invariant
                reach == icon_reach(shape),
                -reach <= dy <= reach,
                -reach <= dx <= reach + 1,
                i32::MIN + 5 <= cx <= i32::MAX - 5,
                i32::MIN + 5 <= cy <= i32::MAX - 5,
                forall|i: int| 0 <= i < r@.len() ==>
                    icon_pixel(shape, cx as int, cy as int, img_w as int, img_h as int, (#[trigger] r@[i]).0 as int, r@[i].1 as int)
                    && row_major_lt(r@[i].0 as int, r@[i].1 as int, cx + dx, cy + dy),
                forall|x: i32, y: i32| icon_pixel(shape, cx as int, cy as int, img_w as int, img_h as int, x as int, y as int)
                    && row_major_lt(x as int, y as int, cx + dx, cy + dy) ==> #[trigger] r@.contains((x, y)),
                forall|i: int, j: int| 0 <= i < j < r@.len() ==> row_major_lt(r@[i].0 as int, r@[i].1 as int, r@[j].0 as int, r@[j].1 as int),
            decreases reach + 1 - dx,
        {
            let px = cx + dx;
            let py = cy + dy;
            let ghost before = r@;
            if offset_in_icon(shape, dx, dy) && px >= 0 && py >= 0 && px < img_w && py < img_h {
                r.push((px, py));
                proof {
                    assert forall|x: i32, y: i32| icon_pixel(shape, cx as int, cy as int, img_w as int, img_h as int, x as int, y as int)
                        && row_major_lt(x as int, y as int, cx + dx + 1, cy + dy) implies #[trigger] r@.contains((x, y)) by {
                        if x == px && y == py {
                            assert(r@[r@.len() - 1] == (x, y));
                        } else {
                            assert(before.contains((x, y)));
                            let w = choose|w: int| 0 <= w < before.len() && before[w] == (x, y);
                            assert(r@[w] == before[w]);
                        }
                    }
                }
            } else {
                proof {
                    assert forall|x: i32, y: i32| icon_pixel(shape, cx as int, cy as int, img_w as int, img_h as int, x as int, y as int)
                        && row_major_lt(x as int, y as int, cx + dx + 1, cy + dy) implies #[trigger] r@.contains((x, y)) by {
                        if x == px && y == py {
                            assert(!icon_pixel(shape, cx as int, cy as int, img_w as int, img_h as int, x as int, y as int));
                        }
                    }
                }
            }
            dx = dx + 1;
        }
        proof {
            assert forall|x: i32, y: i32| icon_pixel(shape, cx as int, cy as int, img_w as int, img_h as int, x as int, y as int)
                && y < cy + dy + 1 implies #[trigger] r@.contains((x, y)) by {
                if y == cy + dy {
                    assert(x - cx <= reach);
                    assert(row_major_lt(x as int, y as int, cx + dx, cy + dy));
                } else {
                    assert(row_major_lt(x as int, y as int, cx + dx, cy + dy));
                }
            }
        }
        dy = dy + 1;
    }
    proof {
        assert forall|x: i32, y: i32| icon_pixel(shape, cx as int, cy as int, img_w as int, img_h as int, x as int, y as int)
            implies #[trigger] r@.contains((x, y)) by {
            assert(y - cy <= reach);
        }
    }
    r
}

/// The PNG file that the `image` crate writes for an 8-bit RGB raster
/// `pixels` of `width`×`height` (row-major, three bytes per pixel).
pub uninterp spec fn png_rgb8(pixels: Seq<u8>, width: u32, height: u32) -> Seq<u8>;

/// The 8-bit RGB raster (bytes, width, height) that the `image` crate
/// decodes from the image file `bytes`, or `None` where it refuses them.
pub uninterp spec fn png_decode_rgb8(bytes: Seq<u8>) -> Option<(Seq<u8>, u32, u32)>;

/// Rasters up to this many bytes decode again within the decoder's default
/// allocation budget (512 MiB in `image::Limits::default`).
pub const PNG_ROUND_TRIP_MAX_BYTES: u64 = 0x0800_0000;

/// The eight bytes every PNG file starts with.
pub open spec fn png_signature() -> Seq<u8> {
    seq![0x89u8, 0x50u8, 0x4Eu8, 0x47u8, 0x0Du8, 0x0Au8, 0x1Au8, 0x0Au8]
}

/// `s` begins with `prefix`.
pub open spec fn starts_with(s: Seq<char>, prefix: Seq<char>) -> bool {
    prefix.len() <= s.len() && s.take(prefix.len() as int) == prefix
}

/// Encode an RGB raster as PNG.
///
/// Calls `image::ImageEncoder::write_image` on an `image::codecs::png::PngEncoder`
/// writing into a `Vec<u8>`, with colour type `Rgb8`. The encoder asserts that
/// the buffer holds exactly `width * height * 3` bytes (required here). What
/// it writes is named `png_rgb8`, a function of the raster and its size. The
/// `png` writer refuses a zero width or height (`ZeroWidth`, `ZeroHeight`);
/// otherwise writing into memory does not fail, as the image data goes out in
/// bounded `IDAT` chunks. The writer starts the (initially empty) buffer
/// with the PNG signature before the `IHDR` chunk. The file is lossless 8-bit RGB, so the decoder reads
/// the same raster back wherever the raster fits its allocation budget. The
/// text of the encoder's error is handed back as it is.
#[verifier::external_body]
fn write_png_rgb8(pixels: &[u8], width: u32, height: u32) -> (r: Result<Vec<u8>, String>)
    requires
        pixels@.len() == width as int * height as int * 3,
    ensures
        r matches Ok(bytes) ==> bytes@ == png_rgb8(pixels@, width, height),
        r is Ok <==> (width > 0 && height > 0),
        r matches Ok(bytes) ==> (bytes@.len() >= 8 && bytes@.take(8) == png_signature()),
        r matches Ok(bytes) ==> (pixels@.len() <= PNG_ROUND_TRIP_MAX_BYTES
            ==> png_decode_rgb8(bytes@) == Some((pixels@, width, height))),
{
    let mut out: Vec<u8> = Vec::new();
    let encoder = image::codecs::png::PngEncoder::new(&mut out);
    match image::ImageEncoder::write_image(encoder, pixels, width, height, image::ExtendedColorType::Rgb8) {
        Ok(()) => Ok(out),
        Err(e) => Err(e.to_string()),
    }
}

/// `prefix` followed by `detail`.
fn prefixed(prefix: &str, detail: &str) -> (m: String)
    ensures
        m@ == prefix@ + detail@,
        starts_with(m@, prefix@),
{
    let m = String::from_str(prefix).concat(detail);
    proof {
        assert(m@.take(prefix@.len() as int) =~= prefix@);
    }
    m
}

/// PNG bytes of an RGB raster, starting with the PNG signature. It fails, with an export error whose message
/// starts with "PNG encoding failed: ", exactly when the raster is empty in
/// either direction; the PNG read back gives the raster again.
pub fn encode_png(pixels: &[u8], width: u32, height: u32) -> (r: Result<Vec<u8>, crate::scan::ScanError>)
    requires
        pixels@.len() == width as int * height as int * 3,
    ensures
        r matches Ok(bytes) ==> bytes@ == png_rgb8(pixels@, width, height),
        r is Ok <==> width > 0 && height > 0,
        r matches Ok(bytes) ==> bytes@.len() >= 8 && bytes@.take(8) == png_signature(),
        r matches Ok(bytes) ==> (pixels@.len() <= PNG_ROUND_TRIP_MAX_BYTES
            ==> png_decode_rgb8(bytes@) == Some((pixels@, width, height))),
        r matches Err(e) ==> e matches crate::scan::ScanError::ExportError(m)
            && starts_with(m@, "PNG encoding failed: "@),
{
    match write_png_rgb8(pixels, width, height) {
        Ok(bytes) => Ok(bytes),
        Err(detail) => {
            let m = prefixed("PNG encoding failed: ", detail.as_str());
            Err(crate::scan::ScanError::ExportError(m))
        },
    }
}

/// Decode an image file into an RGB raster.
///
/// Calls `image::load_from_memory` (format guessed from the bytes), converts
/// with `DynamicImage::to_rgb8` and takes the buffer apart with
/// `ImageBuffer::dimensions` and `ImageBuffer::into_raw`. Whether it succeeds,
/// and what it returns, is named `png_decode_rgb8`, a function of the bytes.
/// Its buffer holds three bytes per pixel, as `to_rgb8` builds a fresh
/// `width * height` buffer, and neither side is zero: the PNG decoder (the one
/// format built here) refuses a zero width or height (`InvalidDimensions`).
/// The text of the decoder's error is handed back as it is.
#[verifier::external_body]
fn read_rgb8(bytes: &[u8]) -> (r: Result<(Vec<u8>, u32, u32), String>)
    ensures
        r is Ok <==> png_decode_rgb8(bytes@) is Some,
        r matches Ok(img) ==> (png_decode_rgb8(bytes@) == Some((img.0@, img.1, img.2))
            && img.0@.len() == img.1 as int * img.2 as int * 3
            && img.1 > 0 && img.2 > 0),
{
    match image::load_from_memory(bytes) {
        Ok(decoded) => {
            let rgb = decoded.to_rgb8();
            let (width, height) = rgb.dimensions();
            Ok((rgb.into_raw(), width, height))
        },
        Err(e) => Err(e.to_string()),
    }
}

/// RGB raster of an image file, or an export error whose message starts with
/// "failed to decode base PNG: " when it cannot be decoded.
pub fn decode_png(bytes: &[u8]) -> (r: Result<(Vec<u8>, u32, u32), crate::scan::ScanError>)
    ensures
        r is Ok <==> png_decode_rgb8(bytes@) is Some,
        r matches Ok(img) ==> png_decode_rgb8(bytes@) == Some((img.0@, img.1, img.2))
            && img.0@.len() == img.1 as int * img.2 as int * 3
            && img.1 > 0 && img.2 > 0,
        r matches Err(e) ==> e matches crate::scan::ScanError::ExportError(m)
            && starts_with(m@, "failed to decode base PNG: "@),
{
    match read_rgb8(bytes) {
        Ok(img) => Ok(img),
        Err(detail) => {
            let m = prefixed("failed to decode base PNG: ", detail.as_str());
            Err(crate::scan::ScanError::ExportError(m))
        },
    }
}

/// An image file written out again as PNG, unchanged: what an annotation with
/// nothing to draw gives. It fails exactly when the file cannot be decoded;
/// otherwise the result is the PNG of the decoded raster (so it starts with
/// the PNG signature), which reads back as
/// that raster where it fits the decoder's budget.
pub fn reencode_png(base: &[u8]) -> (r: Result<Vec<u8>, crate::scan::ScanError>)
    ensures
        match png_decode_rgb8(base@) {
            None => r matches Err(e) && e matches crate::scan::ScanError::ExportError(m)
                && starts_with(m@, "failed to decode base PNG: "@),
            Some(d) => {
                &&& r matches Ok(p) && p@ == png_rgb8(d.0, d.1, d.2) && p@.len() >= 8 && p@.take(8) == png_signature()
                &&& d.0.len() <= PNG_ROUND_TRIP_MAX_BYTES ==> (r matches Ok(p) && png_decode_rgb8(p@) == Some(d))
            },
        },
{
    let (pixels, width, height) = decode_png(base)?;
    encode_png(pixels.as_slice(), width, height)
}

/// Whether `ab_glyph` accepts `bytes` as a font (the first face of a
/// TrueType/OpenType file or collection).
pub uninterp spec fn font_parses(bytes: Seq<u8>) -> bool;

/// Parse a font.
///
/// Calls `ab_glyph::FontRef::try_from_slice`, which parses face 0 with
/// `ttf_parser::Face::parse`; whether it succeeds is named `font_parses`, a
/// function of the bytes. The parsed font is dropped here (the caller draws
/// with its own handle); the text of the `InvalidFont` error is handed back
/// as it is.
#[verifier::external_body]
fn parse_font(bytes: &[u8]) -> (r: Result<(), String>)
    ensures
        r is Ok <==> font_parses(bytes@),
{
    match ab_glyph::FontRef::try_from_slice(bytes) {
        Ok(_) => Ok(()),
        Err(e) => Err(e.to_string()),
    }
}

/// Check that the label font loads; otherwise an export error whose message
/// starts with "failed to load font: ".
pub fn check_font(bytes: &[u8]) -> (r: Result<(), crate::scan::ScanError>)
    ensures
        r is Ok <==> font_parses(bytes@),
        r matches Err(e) ==> e matches crate::scan::ScanError::ExportError(m)
            && starts_with(m@, "failed to load font: "@),
{
    match parse_font(bytes) {
        Ok(()) => Ok(()),
        Err(detail) => {
            let m = prefixed("failed to load font: ", detail.as_str());
            Err(crate::scan::ScanError::ExportError(m))
        },
    }
}

} // verus!
