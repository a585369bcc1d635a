//! Text detection: from the probability of text at each pixel to boxes in the
//! order in which they are read.

use crate::float32::Float32;
use crate::order::{is_stable_order, order_of, stable_order};
use image::{GrayImage, Luma};
use imageproc::distance_transform::Norm;
use imageproc::region_labelling::Connectivity;
use std::collections::HashMap;
use vstd::prelude::*;

verus! {

/// Pixels more likely than this belong to text: 0.3.
pub const PROB_THRESH_BITS: u32 = 0x3e99_999a;

/// The long edge of the image that the detector takes, at most.
pub const MAX_SIDE: u32 = 1280;

/// Boxes with a shorter edge are noise.
pub const MIN_BOX_PX: u32 = 3;

/// A box of text, in pixels of the page.
#[derive(Clone, Copy, PartialEq, Eq, Structural, Debug)]
pub struct TextBox {
    pub x: u32,
    pub y: u32,
    pub w: u32,
    pub h: u32,
}

// ── Pixels ──────────────────────────────────────────────────────────────────

/// White where text is likely, black elsewhere.
pub open spec fn binary_of(prob: Seq<Float32>) -> Seq<u8> {
    prob.map_values(
        |p: Float32|
            if (Float32 { bits: PROB_THRESH_BITS }).less(p) {
                255u8
            } else {
                0u8
            },
    )
}

/// White where text is likely, black elsewhere.
pub fn binarize(prob: &Vec<Float32>) -> (r: Vec<u8>)
    ensures
        r@ == binary_of(prob@),
{
    let threshold: Float32 = Float32 { bits: PROB_THRESH_BITS };
    let mut out: Vec<u8> = Vec::new();
    let mut i: usize = 0;
    while i < prob.len()
        invariant
            i <= prob@.len(),
            threshold == (Float32 { bits: PROB_THRESH_BITS }),
            out@ =~= binary_of(prob@.take(i as int)),
        decreases prob@.len() - i,
    {
        out.push(
            if threshold.lt(prob[i]) {
                255
            } else {
                0
            },
        );
        i = i + 1;
    }
    assert(prob@.take(i as int) =~= prob@);
    out
}

/// The distance of two numbers.
pub open spec fn gap(a: int, b: int) -> int {
    if a <= b {
        b - a
    } else {
        a - b
    }
}

/// Whether two pixels of an image `w` pixels wide are the same or touch, sidewise
/// or at a corner.
pub open spec fn touching(w: int, i: int, j: int) -> bool {
    gap(i % w, j % w) <= 1 && gap(i / w, j / w) <= 1
}

/// Whether a pixel is white or touches one that is not black.
pub open spec fn near_white(img: Seq<u8>, w: int, i: int) -> bool {
    exists|j: int| 0 <= j < img.len() && #[trigger] img[j] > 0 && touching(w, i, j)
}

/// Whether `out` is `img` with every white part one pixel wider.
pub open spec fn is_dilation(out: Seq<u8>, img: Seq<u8>, w: int) -> bool {
    &&& out.len() == img.len()
    &&& forall|i: int|
        0 <= i < out.len() ==> #[trigger] out[i] == if near_white(img, w, i) {
            255u8
        } else {
            0u8
        }
}

/// `imageproc::morphology::dilate` with the maximum norm and distance one: a pixel
/// becomes white where it or one that touches it is not black, and black
/// elsewhere.
#[verifier::external_body]
fn dilate(img: Vec<u8>, w: u32, h: u32) -> (r: Vec<u8>)
    requires
        img@.len() == w * h,
        w + h <= u32::MAX,
    ensures
        is_dilation(r@, img@, w as int),
{
    let gray = GrayImage::from_raw(w, h, img).expect("one byte for each pixel");
    imageproc::morphology::dilate(&gray, Norm::LInf, 1).into_raw()
}

/// Whether the pixels of a path have one colour and each touches the next.
pub open spec fn is_path(img: Seq<u8>, w: int, path: Seq<int>) -> bool {
    &&& path.len() > 0
    &&& forall|k: int|
        0 <= k < path.len() ==> 0 <= #[trigger] path[k] < img.len() && img[path[k]] == img[path[0]]
    &&& forall|k: int| 0 < k < path.len() ==> touching(w, path[k - 1], #[trigger] path[k])
}

/// Whether a path of one colour leads from one pixel to the other.
pub open spec fn connected(img: Seq<u8>, w: int, a: int, b: int) -> bool {
    exists|path: Seq<int>|
        #[trigger] is_path(img, w, path) && path[0] == a && path.last() == b
}

/// Whether `labels` tells the connected parts of `img` apart: black pixels have the
/// label zero, two others have the same one exactly where they are connected, and the
/// labels count up from one in the order in which the parts begin, row by row.
pub open spec fn is_labelling(labels: Seq<u32>, img: Seq<u8>, w: int) -> bool {
    &&& labels.len() == img.len()
    &&& forall|i: int| 0 <= i < labels.len() ==> (#[trigger] labels[i] == 0 <==> img[i] == 0)
    &&& forall|i: int, j: int|
        0 <= i < labels.len() && 0 <= j < labels.len() && img[i] != 0 && img[j] != 0 ==> (
        #[trigger] labels[i] == #[trigger] labels[j] <==> connected(img, w, i, j))
    &&& forall|i: int|
        0 <= i < labels.len() && #[trigger] labels[i] > 1 ==> exists|j: int|
            0 <= j < i && #[trigger] labels[j] == labels[i] - 1
}

/// `imageproc::region_labelling::connected_components` with eight neighbours and
/// black as the background: black pixels get the label zero, and two others get
/// the same label exactly where a path of one colour connects them. The labels count
/// up from one in the order in which the components begin, row by row. An image of one
/// pixel, or of more than two colours, may have more labels than the function has
/// room for.
#[verifier::external_body]
fn label_components(img: Vec<u8>, w: u32, h: u32) -> (r: Vec<u32>)
    requires
        img@.len() == w * h,
        img@.len() < 0x1_0000_0000,
        img@.len() != 1,
        forall|i: int| 0 <= i < img@.len() ==> #[trigger] img@[i] == 0 || img@[i] == 255,
    ensures
        is_labelling(r@, img@, w as int),
{
    let gray = GrayImage::from_raw(w, h, img).expect("one byte for each pixel");
    let background = Luma([0u8]);
    imageproc::region_labelling::connected_components(&gray, Connectivity::Eight, background).into_raw()
}

// ── Components ──────────────────────────────────────────────────────────────

/// A connected part of the text, by its label: the box around it and the number
/// of its pixels.
#[derive(Clone, Copy, PartialEq, Eq, Structural, Debug)]
pub struct Component {
    pub label: u32,
    pub min_x: u32,
    pub min_y: u32,
    pub max_x: u32,
    pub max_y: u32,
    pub count: u64,
}

/// The component of a label among the first `n` pixels, if it has any.
pub open spec fn component_of(labels: Seq<u32>, w: int, label: u32, n: int) -> Option<Component>
    decreases n,
{
    if n <= 0 {
        None
    } else {
        let before = component_of(labels, w, label, n - 1);
        if labels[n - 1] != label {
            before
        } else {
            let x = ((n - 1) % w) as u32;
            let y = ((n - 1) / w) as u32;
            match before {
                None => Some(
                    Component { label, min_x: x, min_y: y, max_x: x, max_y: y, count: 1 },
                ),
                Some(c) => Some(
                    Component {
                        label,
                        min_x: if x < c.min_x {
                            x
                        } else {
                            c.min_x
                        },
                        min_y: if y < c.min_y {
                            y
                        } else {
                            c.min_y
                        },
                        max_x: if x > c.max_x {
                            x
                        } else {
                            c.max_x
                        },
                        max_y: if y > c.max_y {
                            y
                        } else {
                            c.max_y
                        },
                        count: (c.count + 1) as u64,
                    },
                ),
            }
        }
    }
}

/// Whether a list holds the components of all labels but zero, each once.
pub open spec fn lists_components(list: Seq<Component>, labels: Seq<u32>, w: int) -> bool {
    &&& forall|i: int|
        0 <= i < list.len() ==> (#[trigger] list[i]).label != 0 && component_of(
            labels,
            w,
            list[i].label,
            labels.len() as int,
        ) == Some(list[i])
    &&& forall|k: int|
        0 <= k < labels.len() && #[trigger] labels[k] != 0 ==> exists|i: int|
            0 <= i < list.len() && (#[trigger] list[i]).label == labels[k]
    &&& forall|i: int, j: int|
        0 <= i < j < list.len() ==> (#[trigger] list[i]).label != (#[trigger] list[j]).label
}

proof fn lemma_component_label(labels: Seq<u32>, w: int, label: u32, n: int)
    ensures
        component_of(labels, w, label, n) is Some ==> component_of(labels, w, label, n)->Some_0.label
            == label && component_of(labels, w, label, n)->Some_0.count <= n,
        forall|k: int|
            0 <= k < n && #[trigger] labels[k] == label ==> component_of(labels, w, label, n) is Some,
    decreases n,
{
    if n > 0 {
        lemma_component_label(labels, w, label, n - 1);
    }
}

/// The components of the labels of an image, in the order in which they are met
/// row by row.
pub fn components(labels: &Vec<u32>, w: u32, h: u32) -> (r: Vec<Component>)
    requires
        labels@.len() == w * h,
    ensures
        lists_components(r@, labels@, w as int),
{
    broadcast use vstd::std_specs::hash::group_hash_axioms;

    let mut list: Vec<Component> = Vec::new();
    let mut at: HashMap<u32, usize> = HashMap::new();
    let mut i: usize = 0;
    let mut x: u32 = 0;
    let mut y: u32 = 0;
    if w > 0 {
        assert(0int % (w as int) == 0 && 0int / (w as int) == 0) by (nonlinear_arith)
            requires
                w > 0,
        ;
    }
    while i < labels.len()
        invariant
            i <= labels@.len(),
            labels@.len() == w * h,
            i < labels@.len() ==> w > 0 && x < w && y < h && x == i as int % w as int && y == i as int
                / w as int,
            forall|l: u32| #[trigger]
                at@.contains_key(l) <==> l != 0 && component_of(labels@, w as int, l, i as int)
                    is Some,
            forall|l: u32| #[trigger]
                at@.contains_key(l) ==> at@[l] < list@.len() && Some(list@[at@[l] as int])
                    == component_of(labels@, w as int, l, i as int) && list@[at@[l] as int].label
                    == l,
            forall|j: int|
                0 <= j < list@.len() ==> at@.contains_key((#[trigger] list@[j]).label)
                    && at@[list@[j].label] == j,
        decreases labels@.len() - i,
    {
        let label: u32 = labels[i];
        proof {
            lemma_component_label(labels@, w as int, label, i as int);
        }
        if label != 0 {
            let ghost before = list@;
            match at.get(&label) {
                Some(p) => {
                    let k: usize = *p;
                    assert(at@.contains_key(label));
                    let c: Component = list[k];
                    assert(c.label == label);
                    let next = Component {
                        label,
                        min_x: if x < c.min_x {
                            x
                        } else {
                            c.min_x
                        },
                        min_y: if y < c.min_y {
                            y
                        } else {
                            c.min_y
                        },
                        max_x: if x > c.max_x {
                            x
                        } else {
                            c.max_x
                        },
                        max_y: if y > c.max_y {
                            y
                        } else {
                            c.max_y
                        },
                        count: c.count + 1,
                    };
                    list.set(k, next);
                },
                None => {
                    assert(!at@.contains_key(label));
                    let k: usize = list.len();
                    list.push(
                        Component { label, min_x: x, min_y: y, max_x: x, max_y: y, count: 1 },
                    );
                    at.insert(label, k);
                },
            }
        }
        proof {
            lemma_step(i as int, w as int, h as int, x as int, y as int);
        }
        i = i + 1;
        if i < labels.len() {
            if x + 1 < w {
                x = x + 1;
            } else {
                x = 0;
                y = y + 1;
            }
        }
    }
    proof {
        assert forall|k: int| 0 <= k < labels@.len() && #[trigger] labels@[k] != 0 implies exists|
            j: int,
        |
            0 <= j < list@.len() && (#[trigger] list@[j]).label == labels@[k] by {
            let l = labels@[k];
            lemma_component_label(labels@, w as int, l, labels@.len() as int);
            assert(at@.contains_key(l));
            assert(list@[at@[l] as int].label == l);
        }
    }
    list
}

proof fn lemma_step(i: int, w: int, h: int, x: int, y: int)
    requires
        0 <= i < w * h,
        w > 0,
        x == i % w,
        y == i / w,
    ensures
        x + 1 < w ==> (i + 1) % w == x + 1 && (i + 1) / w == y,
        x + 1 >= w ==> (i + 1) % w == 0 && (i + 1) / w == y + 1,
        i + 1 < w * h && x + 1 >= w ==> y + 1 < h,
{
    assert(i == y * w + x && 0 <= x < w) by (nonlinear_arith)
        requires
            w > 0,
            x == i % w,
            y == i / w,
    ;
    if x + 1 < w {
        assert((i + 1) % w == x + 1 && (i + 1) / w == y) by (nonlinear_arith)
            requires
                i + 1 == y * w + (x + 1),
                0 <= x + 1 < w,
        ;
    } else {
        assert((y + 1) * w == y * w + w) by (nonlinear_arith);
        assert((i + 1) % w == 0 && (i + 1) / w == y + 1) by (nonlinear_arith)
            requires
                i + 1 == (y + 1) * w,
                w > 0,
        ;
        if i + 1 < w * h {
            assert(y + 1 < h) by (nonlinear_arith)
                requires
                    (y + 1) * w < w * h,
                    w > 0,
            ;
        }
    }
}

/// The text in a map of probabilities.
#[derive(Debug)]
pub struct Detection {
    /// The label of the component of each pixel; zero where there is none.
    pub labels: Vec<u32>,
    /// The components that are large enough to be text.
    pub components: Vec<Component>,
}

/// The components of the text in a map of probabilities, which are to become boxes:
/// neighbouring parts are joined, and what is too small to be text is left out.
pub fn find_components(prob: &Vec<Float32>, w: u32, h: u32) -> (r: Detection)
    requires
        prob@.len() == w * h,
        prob@.len() < 0x1_0000_0000,
        prob@.len() != 1,
        w + h <= u32::MAX,
    ensures
        exists|wide: Seq<u8>|
            is_dilation(wide, binary_of(prob@), w as int) && #[trigger] is_labelling(
                r.labels@,
                wide,
                w as int,
            ),
        exists|all: Seq<Component>|
            #[trigger] lists_components(all, r.labels@, w as int) && r.components@ == all.filter(
                large_enough(),
            ),
{
    let binary = binarize(prob);
    let wide = dilate(binary, w, h);
    let ghost wide_view = wide@;
    let labels = label_components(wide, w, h);
    assert(is_labelling(labels@, wide_view, w as int));
    let all = components(&labels, w, h);
    let ghost keep = large_enough();
    let mut out: Vec<Component> = Vec::new();
    let mut i: usize = 0;
    assert(all@.take(0).filter(keep) =~= Seq::empty());
    while i < all.len()
        invariant
            i <= all@.len(),
            keep == large_enough(),
            lists_components(all@, labels@, w as int),
            out@ == all@.take(i as int).filter(keep),
        decreases all@.len() - i,
    {
        let c: Component = all[i];
        proof {
            assert(all@.take(i + 1) =~= all@.take(i as int).push(c));
            all@.take(i as int).lemma_filter_push(c, keep);
            lemma_box(labels@, w as int, c.label, labels@.len() as int);
        }
        if c.max_x - c.min_x >= MIN_BOX_PX - 1 && c.max_y - c.min_y >= MIN_BOX_PX - 1 {
            out.push(c);
        }
        i = i + 1;
    }
    assert(all@.take(i as int) =~= all@);
    let r = Detection { labels, components: out };
    assert(lists_components(all@, r.labels@, w as int) && r.components@ == all@.filter(
        large_enough(),
    ));
    assert(is_dilation(wide_view, binary_of(prob@), w as int) && is_labelling(
        r.labels@,
        wide_view,
        w as int,
    ));
    r
}

/// Picks the components that are not noise.
pub open spec fn large_enough() -> spec_fn(Component) -> bool {
    |c: Component| c.max_x - c.min_x + 1 >= MIN_BOX_PX && c.max_y - c.min_y + 1 >= MIN_BOX_PX
}

proof fn lemma_box(labels: Seq<u32>, w: int, label: u32, n: int)
    ensures
        component_of(labels, w, label, n) is Some ==> {
            let c = component_of(labels, w, label, n)->Some_0;
            c.min_x <= c.max_x && c.min_y <= c.max_y
        },
    decreases n,
{
    if n > 0 {
        lemma_box(labels, w, label, n - 1);
    }
}

/// The box around a component holds every pixel of its label, and each of its four
/// edges touches one.
pub proof fn component_box_is_tight(labels: Seq<u32>, w: int, h: int, label: u32, n: int)
    requires
        0 < w <= u32::MAX,
        0 <= h <= u32::MAX,
        n <= labels.len(),
        labels.len() == w * h,
        component_of(labels, w, label, n) is Some,
    ensures
        ({
            let c = component_of(labels, w, label, n)->Some_0;
            &&& forall|k: int|
                0 <= k < n && #[trigger] labels[k] == label ==> c.min_x <= k % w <= c.max_x
                    && c.min_y <= k / w <= c.max_y
            &&& exists|k: int| 0 <= k < n && #[trigger] labels[k] == label && k % w == c.min_x
            &&& exists|k: int| 0 <= k < n && #[trigger] labels[k] == label && k % w == c.max_x
            &&& exists|k: int| 0 <= k < n && #[trigger] labels[k] == label && k / w == c.min_y
            &&& exists|k: int| 0 <= k < n && #[trigger] labels[k] == label && k / w == c.max_y
        }),
    decreases n,
{
    let m = n - 1;
    assert(0 <= m % w < w && 0 <= m / w < h) by (nonlinear_arith)
        requires
            0 <= m < w * h,
            w > 0,
    ;
    let before = component_of(labels, w, label, m);
    if before is Some {
        component_box_is_tight(labels, w, h, label, m);
        let c = before->Some_0;
        let k1 = choose|k: int| 0 <= k < m && #[trigger] labels[k] == label && k % w == c.min_x;
        let k2 = choose|k: int| 0 <= k < m && #[trigger] labels[k] == label && k % w == c.max_x;
        let k3 = choose|k: int| 0 <= k < m && #[trigger] labels[k] == label && k / w == c.min_y;
        let k4 = choose|k: int| 0 <= k < m && #[trigger] labels[k] == label && k / w == c.max_y;
        assert(labels[k1] == label && labels[k2] == label && labels[k3] == label && labels[k4]
            == label);
    } else {
        lemma_component_label(labels, w, label, m);
    }
    if labels[m] == label {
        assert(labels[m] == label);
    }
}

// ── Reading order ───────────────────────────────────────────────────────────

/// The middle of a box, from top to bottom.
pub open spec fn middle(b: TextBox) -> int {
    b.y + b.h / 2
}

/// Some boxes by their left edges, those with equal ones in the order given.
pub open spec fn left_to_right(band: Seq<TextBox>) -> Seq<TextBox> {
    let order = order_of(band.map_values(|b: TextBox| b.x as i64));
    Seq::new(band.len(), |i: int| band[order[i] as int])
}

/// Some boxes by their middles, those with equal ones in the order given.
pub open spec fn top_to_bottom(boxes: Seq<TextBox>) -> Seq<TextBox> {
    let order = order_of(boxes.map_values(|b: TextBox| middle(b) as i64));
    Seq::new(boxes.len(), |i: int| boxes[order[i] as int])
}

/// The rows that are complete, in reading order, and the row that is not.
pub struct Rows {
    pub ordered: Seq<TextBox>,
    pub band: Seq<TextBox>,
    /// The middle of the first box of the row.
    pub band_mid: int,
    /// The height of its highest box.
    pub band_max_h: int,
}

/// How far from the first box of a row, whose highest box has the given height, a
/// box of that row may be.
pub open spec fn reach(max_h: int) -> int {
    if max_h / 2 < 1 {
        1
    } else {
        max_h / 2
    }
}

/// The greater of two numbers.
pub open spec fn greater(a: int, b: int) -> int {
    if a >= b {
        a
    } else {
        b
    }
}

/// The rows after some boxes, which stand in the order of their middles: a box
/// begins a new row where it is too far below the first box of the row before.
pub open spec fn rows_of(boxes: Seq<TextBox>) -> Rows
    decreases boxes.len(),
{
    if boxes.len() == 0 {
        Rows { ordered: Seq::empty(), band: Seq::empty(), band_mid: 0, band_max_h: 1 }
    } else {
        let r = rows_of(boxes.drop_last());
        let b = boxes.last();
        if r.band.len() == 0 {
            Rows {
                ordered: r.ordered,
                band: seq![b],
                band_mid: middle(b),
                band_max_h: greater(r.band_max_h, b.h as int),
            }
        } else if gap(middle(b), r.band_mid) > reach(r.band_max_h) {
            Rows {
                ordered: r.ordered + left_to_right(r.band),
                band: seq![b],
                band_mid: middle(b),
                band_max_h: greater(1, b.h as int),
            }
        } else {
            Rows {
                ordered: r.ordered,
                band: r.band.push(b),
                band_mid: r.band_mid,
                band_max_h: greater(r.band_max_h, b.h as int),
            }
        }
    }
}

/// The boxes in the order in which they are read: row by row from the top, and
/// each row from the left.
pub open spec fn read_order(boxes: Seq<TextBox>) -> Seq<TextBox> {
    let r = rows_of(top_to_bottom(boxes));
    r.ordered + left_to_right(r.band)
}

/// The height of the highest box.
pub open spec fn tallest(boxes: Seq<TextBox>) -> int
    decreases boxes.len(),
{
    if boxes.len() == 0 {
        0
    } else {
        greater(tallest(boxes.drop_last()), boxes.last().h as int)
    }
}

/// Whether no box stands before one that is clearly above it: further above than
/// half the height of the highest box.
pub open spec fn rows_in_order(r: Seq<TextBox>, max_h: int) -> bool {
    forall|i: int, j: int|
        0 <= i < j < r.len() ==> middle(#[trigger] r[i]) - middle(#[trigger] r[j]) <= reach(max_h)
}

proof fn lemma_tallest(boxes: Seq<TextBox>, b: TextBox)
    requires
        boxes.contains(b),
    ensures
        b.h <= tallest(boxes),
    decreases boxes.len(),
{
    let k = choose|k: int| 0 <= k < boxes.len() && boxes[k] == b;
    if k < boxes.len() - 1 {
        assert(boxes.drop_last()[k] == b);
        lemma_tallest(boxes.drop_last(), b);
    }
}

/// Two lists of the same items have an item both or neither.
proof fn lemma_same_items(a: Seq<TextBox>, b: Seq<TextBox>)
    requires
        a.to_multiset() == b.to_multiset(),
    ensures
        forall|i: int| 0 <= i < a.len() ==> b.contains(#[trigger] a[i]),
{
    broadcast use vstd::seq_lib::group_to_multiset_ensures;

    assert forall|i: int| 0 <= i < a.len() implies b.contains(#[trigger] a[i]) by {
        assert(a.contains(a[i]));
        assert(a.to_multiset().count(a[i]) > 0);
    }
}

/// Closing a row keeps the rows in order.
proof fn lemma_close_row(
    done: Seq<TextBox>,
    row: Seq<TextBox>,
    sorted: Seq<TextBox>,
    start: int,
    end: int,
    band_mid: int,
    max_h: int,
)
    requires
        0 <= start <= end <= sorted.len(),
        row.to_multiset() == sorted.subrange(start, end).to_multiset(),
        rows_in_order(done, max_h),
        forall|x: int, k: int|
            0 <= x < done.len() && start <= k < sorted.len() ==> middle(#[trigger] done[x]) <= middle(
                #[trigger] sorted[k],
            ),
        forall|k: int|
            start <= k < end ==> band_mid <= middle(#[trigger] sorted[k]) <= band_mid + reach(max_h),
        forall|i: int, j: int|
            0 <= i <= j < sorted.len() ==> middle(#[trigger] sorted[i]) <= middle(#[trigger] sorted[j]),
    ensures
        rows_in_order(done + row, max_h),
        forall|x: int, k: int|
            0 <= x < (done + row).len() && end <= k < sorted.len() ==> middle(
                #[trigger] (done + row)[x],
            ) <= middle(#[trigger] sorted[k]),
{
    let band = sorted.subrange(start, end);
    let all = done + row;
    lemma_same_items(row, band);
    assert forall|x: int| 0 <= x < row.len() implies exists|k: int|
        start <= k < end && #[trigger] sorted[k] == #[trigger] row[x] by {
        assert(band.contains(row[x]));
        let k = choose|k: int| 0 <= k < band.len() && band[k] == row[x];
        assert(sorted[start + k] == row[x]);
    }
    assert forall|x: int, k: int|
        0 <= x < all.len() && end <= k < sorted.len() implies middle(#[trigger] all[x]) <= middle(
        #[trigger] sorted[k],
    ) by {
        if x >= done.len() {
            let q = choose|q: int|
                start <= q < end && #[trigger] sorted[q] == row[x - done.len()];
            assert(middle(sorted[q]) <= middle(sorted[k]));
        }
    }
    assert forall|i: int, j: int| 0 <= i < j < all.len() implies middle(#[trigger] all[i]) - middle(
        #[trigger] all[j],
    ) <= reach(max_h) by {
        if j >= done.len() {
            let q = choose|q: int| start <= q < end && #[trigger] sorted[q] == row[j - done.len()];
            if i >= done.len() {
                let p = choose|p: int|
                    start <= p < end && #[trigger] sorted[p] == row[i - done.len()];
                assert(middle(sorted[p]) <= band_mid + reach(max_h));
                assert(band_mid <= middle(sorted[q]));
            } else {
                assert(middle(done[i]) <= middle(sorted[q]));
            }
        }
    }
}

fn sort_left_to_right(band: &Vec<TextBox>) -> (r: Vec<TextBox>)
    ensures
        r@ == left_to_right(band@),
        r@.to_multiset() == band@.to_multiset(),
{
    let mut keys: Vec<i64> = Vec::new();
    let mut i: usize = 0;
    while i < band.len()
        invariant
            i <= band@.len(),
            keys@ =~= band@.take(i as int).map_values(|b: TextBox| b.x as i64),
        decreases band@.len() - i,
    {
        keys.push(band[i].x as i64);
        i = i + 1;
    }
    assert(band@.take(i as int) =~= band@);
    let order = stable_order(&keys);
    let out = arrange(band, &order, Ghost(keys@));
    assert(out@ =~= left_to_right(band@));
    out
}

fn sort_top_to_bottom(boxes: &Vec<TextBox>) -> (r: Vec<TextBox>)
    requires
        forall|i: int| 0 <= i < boxes@.len() ==> middle(#[trigger] boxes@[i]) <= u32::MAX,
    ensures
        r@ == top_to_bottom(boxes@),
        r@.to_multiset() == boxes@.to_multiset(),
        forall|i: int, j: int|
            0 <= i <= j < r@.len() ==> middle(#[trigger] r@[i]) <= middle(#[trigger] r@[j]),
        forall|i: int| 0 <= i < r@.len() ==> boxes@.contains(#[trigger] r@[i]),
{
    let mut keys: Vec<i64> = Vec::new();
    let mut i: usize = 0;
    while i < boxes.len()
        invariant
            i <= boxes@.len(),
            forall|i: int| 0 <= i < boxes@.len() ==> middle(#[trigger] boxes@[i]) <= u32::MAX,
            keys@ =~= boxes@.take(i as int).map_values(|b: TextBox| middle(b) as i64),
        decreases boxes@.len() - i,
    {
        let b: TextBox = boxes[i];
        keys.push((b.y as i64) + ((b.h / 2) as i64));
        i = i + 1;
    }
    assert(boxes@.take(i as int) =~= boxes@);
    let order = stable_order(&keys);
    let out = arrange(boxes, &order, Ghost(keys@));
    proof {
        assert(out@ =~= top_to_bottom(boxes@));
        assert forall|i: int, j: int| 0 <= i <= j < out@.len() implies middle(#[trigger] out@[i])
            <= middle(#[trigger] out@[j]) by {
            if i < j {
                assert(crate::order::precedes(keys@, order@[i] as int, order@[j] as int));
            }
        }
    }
    out
}

fn arrange(items: &Vec<TextBox>, order: &Vec<usize>, keys: Ghost<Seq<i64>>) -> (r: Vec<TextBox>)
    requires
        is_stable_order(keys@, order@),
        keys@.len() == items@.len(),
    ensures
        r@ == Seq::new(items@.len(), |i: int| items@[order@[i] as int]),
        r@.to_multiset() == items@.to_multiset(),
{
    let mut out: Vec<TextBox> = Vec::new();
    let mut k: usize = 0;
    while k < order.len()
        invariant
            k <= order@.len(),
            order@.len() == items@.len(),
            is_stable_order(keys@, order@),
            keys@.len() == items@.len(),
            out@.len() == k,
            forall|j: int| 0 <= j < k ==> #[trigger] out@[j] == items@[order@[j] as int],
        decreases order@.len() - k,
    {
        out.push(items[order[k]]);
        k = k + 1;
    }
    proof {
        assert(out@ =~= Seq::new(items@.len(), |i: int| items@[order@[i] as int]));
        lemma_arranged(items@, order@, keys@);
    }
    out
}

/// Taking every item once, in any order, loses and repeats none.
proof fn lemma_arranged(items: Seq<TextBox>, order: Seq<usize>, keys: Seq<i64>)
    requires
        is_stable_order(keys, order),
        keys.len() == items.len(),
    ensures
        Seq::new(items.len(), |i: int| items[order[i] as int]).to_multiset() == items.to_multiset(),
{
    let out = Seq::new(items.len(), |i: int| items[order[i] as int]);
    let idx = order.map_values(|x: usize| x as int);
    assert forall|i: int, j: int| 0 <= i < idx.len() && 0 <= j < idx.len() && i != j implies idx[i]
        != idx[j] by {
        if i < j {
            assert(crate::order::precedes(keys, order[i] as int, order[j] as int));
        } else {
            assert(crate::order::precedes(keys, order[j] as int, order[i] as int));
        }
    }
    assert forall|k: int| 0 <= k < items.len() implies idx.contains(k) by {
        assert(crate::order::lists(order, k));
        let p = choose|p: int| 0 <= p < order.len() && #[trigger] order[p] == k;
        assert(idx[p] == k);
    }
    lemma_permuted(items, out, idx);
}

/// A list whose items are those of another at distinct positions that are all of
/// its positions holds the same items.
proof fn lemma_permuted(items: Seq<TextBox>, out: Seq<TextBox>, idx: Seq<int>)
    requires
        out.len() == items.len(),
        idx.len() == items.len(),
        idx.no_duplicates(),
        forall|i: int| 0 <= i < idx.len() ==> 0 <= #[trigger] idx[i] < items.len() && out[i]
            == items[idx[i]],
        forall|k: int| 0 <= k < items.len() ==> #[trigger] idx.contains(k),
    ensures
        out.to_multiset() == items.to_multiset(),
    decreases items.len(),
{
    broadcast use vstd::seq_lib::group_to_multiset_ensures;

    if items.len() > 0 {
        let n = items.len() - 1;
        assert(idx.contains(n));
        let p = choose|p: int| 0 <= p < idx.len() && idx[p] == n;
        let items2 = items.drop_last();
        let out2 = out.remove(p);
        let idx2 = idx.remove(p);
        assert forall|i: int| 0 <= i < idx2.len() implies 0 <= #[trigger] idx2[i] < items2.len()
            && out2[i] == items2[idx2[i]] by {
            let q = if i < p {
                i
            } else {
                i + 1
            };
            assert(idx2[i] == idx[q] && out2[i] == out[q]);
            assert(idx[q] != idx[p]);
        }
        assert forall|k: int| 0 <= k < items2.len() implies #[trigger] idx2.contains(k) by {
            assert(idx.contains(k));
            let q = choose|q: int| 0 <= q < idx.len() && idx[q] == k;
            assert(q != p);
            let i = if q < p {
                q
            } else {
                q - 1
            };
            assert(idx2[i] == k);
        }
        assert(idx2.no_duplicates()) by {
            assert forall|i: int, j: int|
                0 <= i < idx2.len() && 0 <= j < idx2.len() && i != j implies idx2[i] != idx2[j] by {
                let a = if i < p {
                    i
                } else {
                    i + 1
                };
                let b = if j < p {
                    j
                } else {
                    j + 1
                };
                assert(idx2[i] == idx[a] && idx2[j] == idx[b] && a != b);
            }
        }
        lemma_permuted(items2, out2, idx2);
        assert(items =~= items2.push(items[n]));
        assert(out2.insert(p, out[p]) =~= out);
        assert(out2.to_multiset().insert(out[p]) == out.to_multiset());
        assert(items2.to_multiset().insert(items[n]) == items.to_multiset());
    } else {
        assert(out =~= items);
    }
}

/// The boxes in the order in which they are read. A row is made of boxes whose
/// middles are near that of its first, which is an order for any boxes: boxes near
/// to one another in a chain do not have to be in one row.
pub fn reading_order(boxes: &Vec<TextBox>) -> (r: Vec<TextBox>)
    requires
        forall|i: int| 0 <= i < boxes@.len() ==> middle(#[trigger] boxes@[i]) <= u32::MAX,
    ensures
        r@ == read_order(boxes@),
        r@.to_multiset() == boxes@.to_multiset(),
        rows_in_order(r@, tallest(boxes@)),
{
    let sorted = sort_top_to_bottom(boxes);
    let ghost max_h = tallest(boxes@);
    let mut ordered: Vec<TextBox> = Vec::new();
    let mut band: Vec<TextBox> = Vec::new();
    let mut band_mid: u32 = 0;
    let mut band_max_h: u32 = 1;
    let mut i: usize = 0;
    proof {
        assert(sorted@.take(0) =~= Seq::empty());
        assert(sorted@.take(0).to_multiset() =~= ordered@.to_multiset().add(band@.to_multiset())) by {
            broadcast use vstd::seq_lib::group_to_multiset_ensures;
        }
    }
    while i < sorted.len()
        invariant
            i <= sorted@.len(),
            forall|i: int| 0 <= i < boxes@.len() ==> middle(#[trigger] boxes@[i]) <= u32::MAX,
            forall|i: int| 0 <= i < sorted@.len() ==> boxes@.contains(#[trigger] sorted@[i]),
            ({
                let r = rows_of(sorted@.take(i as int));
                &&& ordered@ == r.ordered
                &&& band@ == r.band
                &&& band@.len() > 0 ==> band_mid == r.band_mid
                &&& band_max_h == r.band_max_h
            }),
            sorted@.take(i as int).to_multiset() == ordered@.to_multiset().add(band@.to_multiset()),
            forall|i: int, j: int|
                0 <= i <= j < sorted@.len() ==> middle(#[trigger] sorted@[i]) <= middle(
                    #[trigger] sorted@[j],
                ),
            max_h == tallest(boxes@),
            reach(band_max_h as int) <= reach(max_h),
            band@.len() <= i,
            band@ == sorted@.subrange(i - band@.len(), i as int),
            rows_in_order(ordered@, max_h),
            forall|x: int, k: int|
                0 <= x < ordered@.len() && i - band@.len() <= k < sorted@.len() ==> middle(
                    #[trigger] ordered@[x],
                ) <= middle(#[trigger] sorted@[k]),
            forall|k: int|
                i - band@.len() <= k < i ==> band_mid <= middle(#[trigger] sorted@[k]) <= band_mid
                    + reach(max_h),
        decreases sorted@.len() - i,
    {
        broadcast use vstd::seq_lib::group_to_multiset_ensures;

        let b: TextBox = sorted[i];
        proof {
            assert(sorted@.take(i + 1).drop_last() =~= sorted@.take(i as int));
            assert(sorted@.take(i + 1) =~= sorted@.take(i as int).push(b));
            let k = choose|k: int| 0 <= k < boxes@.len() && boxes@[k] == sorted@[i as int];
            assert(middle(boxes@[k]) <= u32::MAX);
            lemma_tallest(boxes@, b);
        }
        let mid: u32 = b.y + b.h / 2;
        let far: u32 = if mid >= band_mid {
            mid - band_mid
        } else {
            band_mid - mid
        };
        let limit: u32 = if band_max_h / 2 < 1 {
            1
        } else {
            band_max_h / 2
        };
        let ghost total = ordered@.to_multiset().add(band@.to_multiset());
        if band.len() > 0 && far > limit {
            let mut row = sort_left_to_right(&band);
            let ghost row_view = row@;
            let ghost done = ordered@;
            ordered.append(&mut row);
            proof {
                assert(ordered@ =~= done + row_view);
                vstd::seq_lib::lemma_multiset_commutative(done, row_view);
                lemma_close_row(
                    done,
                    row_view,
                    sorted@,
                    i - band@.len(),
                    i as int,
                    band_mid as int,
                    max_h,
                );
            }
            band = Vec::new();
            band_max_h = 1;
            assert(band@ =~= Seq::empty());
            assert(total =~= ordered@.to_multiset().add(band@.to_multiset()));
        }
        if band.len() == 0 {
            band_mid = mid;
        }
        if b.h > band_max_h {
            band_max_h = b.h;
        }
        let ghost open = band@;
        band.push(b);
        proof {
            assert(open.len() == 0 ==> band@ =~= seq![b]);
            assert(band@ =~= sorted@.subrange(i + 1 - band@.len(), i + 1));
            assert(total.insert(b) =~= ordered@.to_multiset().add(band@.to_multiset()));
        }
        i = i + 1;
    }
    assert(sorted@.take(i as int) =~= sorted@);
    let mut row = sort_left_to_right(&band);
    let ghost row_view = row@;
    let ghost done = ordered@;
    ordered.append(&mut row);
    proof {
        assert(ordered@ =~= done + row_view);
        vstd::seq_lib::lemma_multiset_commutative(done, row_view);
        lemma_close_row(
            done,
            row_view,
            sorted@,
            i - band@.len(),
            i as int,
            band_mid as int,
            max_h,
        );
    }
    ordered
}

// ── Laws of the reading order ───────────────────────────────────────────────

/// Whether, of any two boxes, the first is higher or begins no further right.
spec fn reads_on(s: Seq<TextBox>) -> bool {
    forall|i: int, j: int|
        0 <= i < j < s.len() ==> middle(#[trigger] s[i]) < middle(#[trigger] s[j]) || s[i].x <= s[j].x
}

/// Whether the boxes that are no lower than `deep` stand from left to right.
spec fn first_row_reads_on(s: Seq<TextBox>, deep: int) -> bool {
    forall|i: int, j: int|
        0 <= i < j < s.len() && middle(#[trigger] s[i]) <= deep && middle(#[trigger] s[j]) <= deep
            ==> s[i].x <= s[j].x
}

proof fn lemma_left_to_right(band: Seq<TextBox>)
    requires
        band.len() <= usize::MAX,
    ensures
        left_to_right(band).len() == band.len(),
        forall|i: int, j: int|
            0 <= i < j < band.len() ==> (#[trigger] left_to_right(band)[i]).x <= (
            #[trigger] left_to_right(band)[j]).x,
        forall|i: int| 0 <= i < band.len() ==> band.contains(#[trigger] left_to_right(band)[i]),
{
    let keys = band.map_values(|b: TextBox| b.x as i64);
    crate::order::stable_order_exists(keys);
    let o = order_of(keys);
    assert forall|i: int, j: int| 0 <= i < j < band.len() implies (#[trigger] left_to_right(
        band,
    )[i]).x <= (#[trigger] left_to_right(band)[j]).x by {
        assert(crate::order::precedes(keys, o[i] as int, o[j] as int));
    }
    assert forall|i: int| 0 <= i < band.len() implies band.contains(
        #[trigger] left_to_right(band)[i],
    ) by {
        assert(band[o[i] as int] == left_to_right(band)[i]);
    }
}

proof fn lemma_top_to_bottom(boxes: Seq<TextBox>)
    requires
        boxes.len() <= usize::MAX,
        forall|i: int| 0 <= i < boxes.len() ==> middle(#[trigger] boxes[i]) <= u32::MAX,
    ensures
        top_to_bottom(boxes).len() == boxes.len(),
        forall|i: int, j: int|
            0 <= i <= j < boxes.len() ==> middle(#[trigger] top_to_bottom(boxes)[i]) <= middle(
                #[trigger] top_to_bottom(boxes)[j],
            ),
        forall|k: int| 0 <= k < boxes.len() ==> top_to_bottom(boxes).contains(#[trigger] boxes[k]),
        forall|i: int| 0 <= i < boxes.len() ==> boxes.contains(#[trigger] top_to_bottom(boxes)[i]),
{
    let keys = boxes.map_values(|b: TextBox| middle(b) as i64);
    crate::order::stable_order_exists(keys);
    let o = order_of(keys);
    let s = top_to_bottom(boxes);
    assert forall|i: int, j: int| 0 <= i <= j < boxes.len() implies middle(#[trigger] s[i])
        <= middle(#[trigger] s[j]) by {
        if i < j {
            assert(crate::order::precedes(keys, o[i] as int, o[j] as int));
        }
    }
    assert forall|k: int| 0 <= k < boxes.len() implies s.contains(#[trigger] boxes[k]) by {
        assert(crate::order::lists(o, k));
        let p = choose|p: int| 0 <= p < o.len() && #[trigger] o[p] == k;
        assert(s[p] == boxes[k]);
    }
    assert forall|i: int| 0 <= i < boxes.len() implies boxes.contains(#[trigger] s[i]) by {
        assert(boxes[o[i] as int] == s[i]);
    }
}

/// What a row that is closed adds to the boxes read before it.
proof fn lemma_row_reads_on(done: Seq<TextBox>, band: Seq<TextBox>)
    requires
        band.len() <= usize::MAX,
        reads_on(done),
        forall|i: int, k: int|
            0 <= i < done.len() && 0 <= k < band.len() ==> middle(#[trigger] done[i]) < middle(
                #[trigger] band[k],
            ),
    ensures
        reads_on(done + left_to_right(band)),
        forall|i: int|
            0 <= i < (done + left_to_right(band)).len() ==> done.contains(
                #[trigger] (done + left_to_right(band))[i],
            ) || band.contains((done + left_to_right(band))[i]),
{
    lemma_left_to_right(band);
    let row = left_to_right(band);
    let all = done + row;
    assert forall|i: int, j: int| 0 <= i < j < all.len() implies middle(#[trigger] all[i]) < middle(
        #[trigger] all[j],
    ) || all[i].x <= all[j].x by {
        if j >= done.len() {
            let q = j - done.len();
            assert(band.contains(row[q]));
            if i >= done.len() {
                assert(row[i - done.len()].x <= row[q].x);
            } else {
                let k = choose|k: int| 0 <= k < band.len() && band[k] == row[q];
                assert(middle(done[i]) < middle(band[k]));
            }
        }
    }
    assert forall|i: int| 0 <= i < all.len() implies done.contains(#[trigger] all[i])
        || band.contains(all[i]) by {
        if i >= done.len() {
            assert(band.contains(row[i - done.len()]));
        } else {
            assert(done[i] == all[i]);
        }
    }
}

proof fn lemma_rows(s: Seq<TextBox>)
    requires
        s.len() <= usize::MAX,
        forall|i: int, j: int|
            0 <= i <= j < s.len() ==> middle(#[trigger] s[i]) <= middle(#[trigger] s[j]),
    ensures
        ({
            let r = rows_of(s);
            &&& s.len() > 0 ==> r.band.len() > 0 && r.band.last() == s.last()
            &&& r.band.len() <= s.len()
            &&& forall|k: int|
                0 <= k < r.band.len() ==> r.band_mid <= middle(#[trigger] r.band[k]) <= r.band_mid
                    + reach(r.band_max_h)
            &&& forall|i: int, k: int|
                0 <= i < r.ordered.len() && 0 <= k < r.band.len() ==> middle(
                    #[trigger] r.ordered[i],
                ) < middle(#[trigger] r.band[k])
            &&& reads_on(r.ordered)
        }),
    decreases s.len(),
{
    if s.len() > 0 {
        let init = s.drop_last();
        let b = s.last();
        assert forall|i: int, j: int| 0 <= i <= j < init.len() implies middle(#[trigger] init[i])
            <= middle(#[trigger] init[j]) by {
            assert(middle(s[i]) <= middle(s[j]));
        }
        lemma_rows(init);
        let r = rows_of(init);
        if r.band.len() > 0 {
            assert(init.last() == s[s.len() - 2]);
            assert(middle(s[s.len() - 2]) <= middle(s[s.len() - 1]));
            assert(r.band[r.band.len() - 1] == init.last());
            if gap(middle(b), r.band_mid) > reach(r.band_max_h) {
                lemma_row_reads_on(r.ordered, r.band);
                let all = r.ordered + left_to_right(r.band);
                assert forall|i: int| 0 <= i < all.len() implies middle(#[trigger] all[i]) < middle(
                    b,
                ) by {
                    if r.band.contains(all[i]) {
                        let k = choose|k: int| 0 <= k < r.band.len() && r.band[k] == all[i];
                        assert(middle(r.band[k]) <= r.band_mid + reach(r.band_max_h));
                    } else {
                        let k = choose|k: int| 0 <= k < r.ordered.len() && r.ordered[k] == all[i];
                        assert(middle(r.ordered[k]) < middle(r.band[r.band.len() - 1]));
                    }
                }
            } else {
                assert forall|i: int| 0 <= i < r.ordered.len() implies middle(
                    #[trigger] r.ordered[i],
                ) < middle(b) by {
                    assert(middle(r.ordered[i]) < middle(r.band[r.band.len() - 1]));
                }
            }
        }
    }
}

/// The row of the uppermost box `t` holds every box within the reach of half its
/// height, and is closed as a whole.
proof fn lemma_first_row(s: Seq<TextBox>, t: TextBox, deep: int)
    requires
        s.len() <= usize::MAX,
        forall|i: int, j: int|
            0 <= i <= j < s.len() ==> middle(#[trigger] s[i]) <= middle(#[trigger] s[j]),
        forall|i: int| 0 <= i < s.len() ==> middle(t) <= middle(#[trigger] s[i]),
        s.contains(t) || (forall|i: int| 0 <= i < s.len() ==> middle(#[trigger] s[i]) == middle(t)),
        deep == middle(t) + greater(t.h as int / 2, 1),
    ensures
        ({
            let r = rows_of(s);
            &&& first_row_reads_on(r.ordered, deep)
            &&& r.ordered.len() > 0 ==> forall|k: int|
                0 <= k < r.band.len() ==> middle(#[trigger] r.band[k]) > deep
            &&& r.ordered.len() == 0 ==> s.contains(t) ==> r.band_max_h >= t.h
            &&& r.ordered.len() == 0 && s.len() > 0 ==> r.band_mid <= middle(t)
            &&& r.band_max_h >= 1
            &&& r.ordered.len() == 0 && !s.contains(t) && s.len() > 0 ==> r.band_mid == middle(t)
            &&& r.ordered.len() > 0 ==> s.contains(t)
            &&& r.ordered.len() == 0 && s.len() > 0 ==> r.band_mid == middle(t)
        }),
    decreases s.len(),
{
    if s.len() > 0 {
        let init = s.drop_last();
        let b = s.last();
        assert(b == s[s.len() - 1]);
        assert forall|i: int, j: int| 0 <= i <= j < init.len() implies middle(#[trigger] init[i])
            <= middle(#[trigger] init[j]) by {
            assert(middle(s[i]) <= middle(s[j]));
        }
        assert forall|i: int| 0 <= i < init.len() implies middle(t) <= middle(#[trigger] init[i]) by {
            assert(init[i] == s[i]);
        }
        if !init.contains(t) {
            if s.contains(t) {
                let k = choose|k: int| 0 <= k < s.len() && s[k] == t;
                if k < init.len() {
                    assert(init[k] == t);
                }
                assert(b == t);
            }
            assert forall|i: int| 0 <= i < init.len() implies middle(#[trigger] init[i]) == middle(
                t,
            ) by {
                assert(init[i] == s[i]);
                assert(middle(s[i]) <= middle(s[s.len() - 1]));
            }
        } else {
            let k = choose|k: int| 0 <= k < init.len() && init[k] == t;
            assert(s[k] == t);
        }
        lemma_first_row(init, t, deep);
        lemma_rows(init);
        let r = rows_of(init);
        if r.band.len() == 0 {
            assert(init.len() == 0);
            if s.contains(t) {
                let k = choose|k: int| 0 <= k < s.len() && s[k] == t;
                assert(b == t);
            }
        } else if gap(middle(b), r.band_mid) > reach(r.band_max_h) {
            lemma_left_to_right(r.band);
            let row = left_to_right(r.band);
            let all = r.ordered + row;
            if r.ordered.len() == 0 {
                if !init.contains(t) {
                    assert(middle(b) == middle(t));
                }
                assert(middle(b) > deep);
                assert(all =~= row);
            } else {
                assert forall|k: int| 0 <= k < row.len() implies middle(#[trigger] row[k]) > deep by {
                    assert(r.band.contains(row[k]));
                    let q = choose|q: int| 0 <= q < r.band.len() && r.band[q] == row[k];
                    assert(middle(r.band[q]) > deep);
                }
                assert(r.band[r.band.len() - 1] == init.last());
                assert(middle(r.band[r.band.len() - 1]) > deep);
                assert(middle(s[s.len() - 2]) <= middle(s[s.len() - 1]));
            }
            assert(first_row_reads_on(all, deep)) by {
                assert forall|i: int, j: int|
                    0 <= i < j < all.len() && middle(#[trigger] all[i]) <= deep && middle(
                        #[trigger] all[j],
                    ) <= deep implies all[i].x <= all[j].x by {
                    if r.ordered.len() > 0 && j >= r.ordered.len() {
                        assert(middle(row[j - r.ordered.len()]) > deep);
                    } else if r.ordered.len() == 0 {
                        assert(row[i].x <= row[j].x);
                    } else {
                        assert(r.ordered[i].x <= r.ordered[j].x);
                    }
                }
            }
        } else {
            if r.ordered.len() > 0 {
                assert(r.band[r.band.len() - 1] == init.last());
                assert(middle(r.band[r.band.len() - 1]) > deep);
                assert(middle(s[s.len() - 2]) <= middle(s[s.len() - 1]));
            }
        }
    }
}

/// Of two boxes whose middles lie further apart than half the height of the highest
/// box, and than one pixel, the upper one is read first. `high` is any bound on the
/// heights.
pub proof fn upper_lines_are_read_first(boxes: &Vec<TextBox>, r: Vec<TextBox>, high: int)
    requires
        call_ensures(reading_order, (boxes,), r),
        forall|k: int| 0 <= k < boxes@.len() ==> (#[trigger] boxes@[k]).h <= high,
    ensures
        forall|i: int, j: int|
            #![trigger r@[i], r@[j]]
            0 <= i < r@.len() && 0 <= j < r@.len() && (r@[j].y + r@[j].h / 2) - (r@[i].y + r@[i].h
                / 2) > 1 && 2 * ((r@[j].y + r@[j].h / 2) - (r@[i].y + r@[i].h / 2)) > high ==> i < j,
{
    lemma_tallest_at_most(boxes@, high);
    assert forall|i: int, j: int|
        #![trigger r@[i], r@[j]]
        0 <= i < r@.len() && 0 <= j < r@.len() && (r@[j].y + r@[j].h / 2) - (r@[i].y + r@[i].h / 2)
            > 1 && 2 * ((r@[j].y + r@[j].h / 2) - (r@[i].y + r@[i].h / 2)) > high implies i < j by {
        if j < i {
            assert(middle(r@[j]) - middle(r@[i]) <= reach(tallest(boxes@)));
        }
    }
}

proof fn lemma_tallest_at_most(boxes: Seq<TextBox>, high: int)
    requires
        forall|k: int| 0 <= k < boxes.len() ==> (#[trigger] boxes[k]).h <= high,
    ensures
        boxes.len() > 0 ==> tallest(boxes) <= high || tallest(boxes) == 0,
        boxes.len() == 0 ==> tallest(boxes) == 0,
        tallest(boxes) >= 0,
    decreases boxes.len(),
{
    if boxes.len() > 0 {
        assert(boxes[boxes.len() - 1] == boxes.last());
        assert forall|k: int| 0 <= k < boxes.drop_last().len() implies (
        #[trigger] boxes.drop_last()[k]).h <= high by {
            assert(boxes.drop_last()[k] == boxes[k]);
        }
        lemma_tallest_at_most(boxes.drop_last(), high);
    }
}

/// Every box is read once. A box is read before another only where its middle is
/// higher, or it begins no further right: so boxes on one level are read from left to
/// right.
pub proof fn words_of_a_line_are_read_from_the_left(boxes: &Vec<TextBox>, r: Vec<TextBox>)
    requires
        forall|i: int|
            0 <= i < boxes@.len() ==> (#[trigger] boxes@[i]).y + boxes@[i].h / 2 <= u32::MAX,
        call_ensures(reading_order, (boxes,), r),
    ensures
        r@.to_multiset() == boxes@.to_multiset(),
        forall|i: int, j: int|
            0 <= i < j < r@.len() ==> (#[trigger] r@[i]).y + r@[i].h / 2 < (#[trigger] r@[j]).y
                + r@[j].h / 2 || r@[i].x <= r@[j].x,
{
    assert(boxes.len() == boxes@.len());
    assert forall|i: int| 0 <= i < boxes@.len() implies middle(#[trigger] boxes@[i]) <= u32::MAX by {}
    lemma_top_to_bottom(boxes@);
    let s = top_to_bottom(boxes@);
    lemma_rows(s);
    let rows = rows_of(s);
    lemma_row_reads_on(rows.ordered, rows.band);
    assert(reads_on(r@));
    assert forall|i: int, j: int| 0 <= i < j < r@.len() implies (#[trigger] r@[i]).y + r@[i].h / 2
        < (#[trigger] r@[j]).y + r@[j].h / 2 || r@[i].x <= r@[j].x by {
        assert(middle(r@[i]) < middle(r@[j]) || r@[i].x <= r@[j].x);
    }
}

/// The boxes whose middles are no further below that of the uppermost box `t` than
/// half its height, or one pixel, are one line: they are read from left to right,
/// whatever their middles.
pub proof fn boxes_near_the_top_are_one_line(boxes: &Vec<TextBox>, r: Vec<TextBox>, t: TextBox)
    requires
        forall|i: int|
            0 <= i < boxes@.len() ==> (#[trigger] boxes@[i]).y + boxes@[i].h / 2 <= u32::MAX,
        call_ensures(reading_order, (boxes,), r),
        boxes@.contains(t),
        forall|i: int|
            0 <= i < boxes@.len() ==> t.y + t.h / 2 <= (#[trigger] boxes@[i]).y + boxes@[i].h / 2,
    ensures
        forall|i: int, j: int|
            #![trigger r@[i], r@[j]]
            ({
                let low_i = (r@[i].y + r@[i].h / 2) - (t.y + t.h / 2);
                let low_j = (r@[j].y + r@[j].h / 2) - (t.y + t.h / 2);
                0 <= i < j < r@.len() && (low_i <= 1 || low_i <= t.h / 2) && (low_j <= 1 || low_j
                    <= t.h / 2) ==> r@[i].x <= r@[j].x
            }),
{
    assert(boxes.len() == boxes@.len());
    assert forall|i: int| 0 <= i < boxes@.len() implies middle(#[trigger] boxes@[i]) <= u32::MAX by {}
    lemma_top_to_bottom(boxes@);
    let s = top_to_bottom(boxes@);
    let deep = middle(t) + greater(t.h as int / 2, 1);
    let k = choose|k: int| 0 <= k < boxes@.len() && boxes@[k] == t;
    assert(s.contains(boxes@[k]));
    assert forall|i: int| 0 <= i < s.len() implies middle(t) <= middle(#[trigger] s[i]) by {
        assert(boxes@.contains(s[i]));
        let q = choose|q: int| 0 <= q < boxes@.len() && boxes@[q] == s[i];
        assert(t.y + t.h / 2 <= boxes@[q].y + boxes@[q].h / 2);
    }
    lemma_first_row(s, t, deep);
    lemma_rows(s);
    let rows = rows_of(s);
    lemma_left_to_right(rows.band);
    let row = left_to_right(rows.band);
    let all = rows.ordered + row;
    assert(r@ == all);
    assert forall|i: int, j: int|
        #![trigger r@[i], r@[j]]
        ({
            let low_i = (r@[i].y + r@[i].h / 2) - (t.y + t.h / 2);
            let low_j = (r@[j].y + r@[j].h / 2) - (t.y + t.h / 2);
            0 <= i < j < r@.len() && (low_i <= 1 || low_i <= t.h / 2) && (low_j <= 1 || low_j <= t.h
                / 2)
        }) implies r@[i].x <= r@[j].x by {
        assert(middle(all[i]) <= deep && middle(all[j]) <= deep);
        if rows.ordered.len() == 0 {
            assert(row[i].x <= row[j].x);
        } else if j >= rows.ordered.len() {
            assert(rows.band.contains(row[j - rows.ordered.len()]));
            let q = choose|q: int|
                0 <= q < rows.band.len() && rows.band[q] == row[j - rows.ordered.len()];
            assert(middle(rows.band[q]) > deep);
        } else {
            assert(rows.ordered[i].x <= rows.ordered[j].x);
        }
    }
}

// ── Laws of the components ──────────────────────────────────────────────────

/// Text is likely where the probability is above three tenths.
pub proof fn likely_pixels_are_white(prob: &Vec<Float32>, r: Vec<u8>)
    requires
        call_ensures(binarize, (prob,), r),
    ensures
        r@.len() == prob@.len(),
        forall|i: int|
            0 <= i < r@.len() ==> #[trigger] r@[i] == (if 0x3e99_999a < prob@[i].bits <= 0x7f80_0000 {
                255u8
            } else {
                0u8
            }),
{
}

/// The pixels of a label.
pub open spec fn pixels_of(labels: Seq<u32>, label: u32) -> Set<int> {
    Set::range(0, labels.len() as int).filter(|k: int| labels[k] == label)
}

/// Whether a component is made of the pixels of its label: it counts them, its box holds
/// them all, and each edge of the box touches one of them.
#[verifier::opaque]
pub open spec fn is_made_of_its_pixels(c: Component, labels: Seq<u32>, w: int) -> bool {
    &&& c.count == pixels_of(labels, c.label).len()
    &&& forall|k: int|
        0 <= k < labels.len() && #[trigger] labels[k] == c.label ==> c.min_x <= k % w <= c.max_x
            && c.min_y <= k / w <= c.max_y
    &&& exists|k: int| 0 <= k < labels.len() && #[trigger] labels[k] == c.label && k % w == c.min_x
    &&& exists|k: int| 0 <= k < labels.len() && #[trigger] labels[k] == c.label && k % w == c.max_x
    &&& exists|k: int| 0 <= k < labels.len() && #[trigger] labels[k] == c.label && k / w == c.min_y
    &&& exists|k: int| 0 <= k < labels.len() && #[trigger] labels[k] == c.label && k / w == c.max_y
}

proof fn lemma_pixel_count(labels: Seq<u32>, w: int, label: u32, n: int)
    requires
        0 <= n <= labels.len() <= usize::MAX,
    ensures
        ({
            let at = Set::range(0, n).filter(|k: int| labels[k] == label);
            &&& at.finite()
            &&& at.len() <= n
            &&& component_of(labels, w, label, n) is Some ==> component_of(
                labels,
                w,
                label,
                n,
            )->Some_0.count == at.len()
            &&& component_of(labels, w, label, n) is None ==> at.len() == 0
        }),
    decreases n,
{
    let p = |k: int| labels[k] == label;
    let at = Set::range(0, n).filter(p);
    vstd::set_lib::range_set_properties::<int>(0, n);
    if n > 0 {
        lemma_pixel_count(labels, w, label, n - 1);
        let before = Set::range(0, n - 1).filter(p);
        if labels[n - 1] == label {
            assert(at =~= before.insert(n - 1));
        } else {
            assert(at =~= before);
        }
    } else {
        assert(at =~= Set::empty());
    }
}

proof fn lemma_made_of_pixels(labels: Seq<u32>, w: int, h: int, c: Component)
    requires
        0 < w <= u32::MAX,
        0 <= h <= u32::MAX,
        labels.len() == w * h,
        labels.len() <= usize::MAX,
        component_of(labels, w, c.label, labels.len() as int) == Some(c),
    ensures
        is_made_of_its_pixels(c, labels, w),
{
    reveal(is_made_of_its_pixels);
    component_box_is_tight(labels, w, h, c.label, labels.len() as int);
    lemma_pixel_count(labels, w, c.label, labels.len() as int);
    assert(pixels_of(labels, c.label) =~= Set::range(0, labels.len() as int).filter(
        |k: int| labels[k] == c.label,
    ));
}

/// The components of some labels are, for each label but zero, the pixels that have it.
pub proof fn components_are_made_of_their_pixels(labels: &Vec<u32>, w: u32, h: u32, r: Vec<Component>)
    requires
        labels@.len() == w * h,
        call_ensures(components, (labels, w, h), r),
    ensures
        forall|i: int|
            0 <= i < r@.len() ==> (#[trigger] r@[i]).label != 0 && is_made_of_its_pixels(
                r@[i],
                labels@,
                w as int,
            ),
        forall|k: int|
            0 <= k < labels@.len() && #[trigger] labels@[k] != 0 ==> exists|i: int|
                0 <= i < r@.len() && (#[trigger] r@[i]).label == labels@[k],
        forall|i: int, j: int|
            0 <= i < j < r@.len() ==> (#[trigger] r@[i]).label != (#[trigger] r@[j]).label,
{
    let n = labels@.len() as int;
    assert forall|i: int| 0 <= i < r@.len() implies is_made_of_its_pixels(
        #[trigger] r@[i],
        labels@,
        w as int,
    ) by {
        assert(component_of(labels@, w as int, r@[i].label, n) == Some(r@[i]));
        if w == 0 {
            assert(n == 0) by (nonlinear_arith)
                requires
                    n == w * h,
                    w == 0,
            ;
        } else {
            assert(labels@.len() == labels.len());
            lemma_made_of_pixels(labels@, w as int, h as int, r@[i]);
        }
    }
}

/// Whether two pixels are the same or stand side by side, one above the other or at a
/// corner.
pub open spec fn beside(w: int, i: int, j: int) -> bool {
    -1 <= i % w - j % w <= 1 && -1 <= i / w - j / w <= 1
}

proof fn lemma_beside(w: int, i: int, j: int)
    ensures
        beside(w, i, j) == touching(w, i, j),
{
}

/// Whether pixels that are part of some text lead from one to the next.
pub open spec fn is_text_path(labels: Seq<u32>, w: int, path: Seq<int>) -> bool {
    &&& path.len() > 0
    &&& forall|k: int|
        0 <= k < path.len() ==> 0 <= #[trigger] path[k] < labels.len() && labels[path[k]] != 0
    &&& forall|k: int| 0 < k < path.len() ==> beside(w, path[k - 1], #[trigger] path[k])
}

/// Whether one of the pixels at and around another is more likely text than three
/// tenths.
pub open spec fn text_is_near(prob: Seq<Float32>, w: int, i: int) -> bool {
    exists|j: int|
        0 <= j < prob.len() && 0x3e99_999a < (#[trigger] prob[j]).bits <= 0x7f80_0000 && beside(
            w,
            i,
            j,
        )
}

proof fn lemma_near(prob: Seq<Float32>, w: int, i: int)
    ensures
        near_white(binary_of(prob), w, i) == text_is_near(prob, w, i),
{
    let b = binary_of(prob);
    if near_white(b, w, i) {
        let j = choose|j: int| 0 <= j < b.len() && #[trigger] b[j] > 0 && touching(w, i, j);
        lemma_beside(w, i, j);
        assert(0x3e99_999a < prob[j].bits <= 0x7f80_0000);
    }
    if text_is_near(prob, w, i) {
        let j = choose|j: int|
            0 <= j < prob.len() && 0x3e99_999a < (#[trigger] prob[j]).bits <= 0x7f80_0000 && beside(
                w,
                i,
                j,
            );
        lemma_beside(w, i, j);
        assert(b[j] > 0);
    }
}

proof fn lemma_neighbours(img: Seq<u8>, labels: Seq<u32>, w: int, i: int, j: int)
    requires
        is_labelling(labels, img, w),
        0 <= i < labels.len(),
        0 <= j < labels.len(),
        img[i] == img[j],
        labels[i] != 0,
        labels[j] != 0,
        beside(w, i, j),
    ensures
        labels[i] == labels[j],
{
    lemma_beside(w, i, j);
    let path = seq![i, j];
    assert(is_path(img, w, path)) by {
        assert forall|k: int| 0 < k < path.len() implies touching(w, path[k - 1], #[trigger] path[k])
            by {
            assert(k == 1);
        }
    }
    assert(path.last() == j && path[0] == i);
    assert(connected(img, w, i, j));
}

proof fn lemma_text_path(img: Seq<u8>, labels: Seq<u32>, w: int, i: int, j: int) -> (path: Seq<int>)
    requires
        is_labelling(labels, img, w),
        0 <= i < labels.len(),
        0 <= j < labels.len(),
        labels[i] != 0,
        labels[j] == labels[i],
    ensures
        is_text_path(labels, w, path),
        path[0] == i,
        path.last() == j,
{
    assert(img[i] != 0 && img[j] != 0);
    assert(connected(img, w, i, j));
    let path = choose|path: Seq<int>|
        #[trigger] is_path(img, w, path) && path[0] == i && path.last() == j;
    assert forall|k: int| 0 <= k < path.len() implies 0 <= #[trigger] path[k] < labels.len()
        && labels[path[k]] != 0 by {
        assert(img[path[k]] == img[path[0]]);
        assert(labels[path[k]] == 0 <==> img[path[k]] == 0);
    }
    assert forall|k: int| 0 < k < path.len() implies beside(w, path[k - 1], #[trigger] path[k]) by {
        lemma_beside(w, path[k - 1], path[k]);
    }
    path
}

/// A pixel is part of some text exactly where it or one of the eight around it is more
/// likely text than three tenths. Two such pixels are of one component where they touch,
/// and where they are of one component, such pixels lead from the one to the other.
pub proof fn text_is_where_it_is_likely(
    prob: &Vec<Float32>,
    w: u32,
    h: u32,
    r: Detection,
    i: int,
    j: int,
)
    requires
        call_ensures(find_components, (prob, w, h), r),
        0 <= i < prob@.len(),
        0 <= j < prob@.len(),
    ensures
        r.labels@.len() == prob@.len(),
        r.labels@[i] != 0 <==> text_is_near(prob@, w as int, i),
        r.labels@[i] != 0 && r.labels@[j] != 0 && beside(w as int, i, j) ==> r.labels@[i]
            == r.labels@[j],
        r.labels@[i] != 0 && r.labels@[j] == r.labels@[i] ==> exists|path: Seq<int>|
            #[trigger] is_text_path(r.labels@, w as int, path) && path[0] == i && path.last() == j,
{
    let b = binary_of(prob@);
    let l = r.labels@;
    let v = w as int;
    let wide = choose|wide: Seq<u8>|
        is_dilation(wide, b, v) && #[trigger] is_labelling(l, wide, v);
    lemma_near(prob@, v, i);
    assert(wide[i] == 0 || wide[i] == 255);
    assert(wide[j] == 0 || wide[j] == 255);
    if l[i] != 0 && l[j] != 0 && beside(v, i, j) {
        lemma_neighbours(wide, l, v, i, j);
    }
    if l[i] != 0 && l[j] == l[i] {
        let path = lemma_text_path(wide, l, v, i, j);
    }
}

/// Whether the pixels of a label fit in two columns.
#[verifier::opaque]
pub open spec fn is_narrow(labels: Seq<u32>, w: int, label: u32) -> bool {
    forall|a: int, b: int|
        0 <= a < labels.len() && 0 <= b < labels.len() && #[trigger] labels[a] == label
            && #[trigger] labels[b] == label ==> a % w - b % w <= 1
}

/// Whether the pixels of a label fit in two rows.
#[verifier::opaque]
pub open spec fn is_flat(labels: Seq<u32>, w: int, label: u32) -> bool {
    forall|a: int, b: int|
        0 <= a < labels.len() && 0 <= b < labels.len() && #[trigger] labels[a] == label
            && #[trigger] labels[b] == label ==> a / w - b / w <= 1
}

proof fn lemma_large(l: Seq<u32>, w: int, h: int, c: Component)
    requires
        0 < w <= u32::MAX,
        0 <= h <= u32::MAX,
        l.len() == w * h,
        l.len() <= usize::MAX,
        component_of(l, w, c.label, l.len() as int) == Some(c),
    ensures
        is_made_of_its_pixels(c, l, w),
        large_enough()(c) <==> !is_narrow(l, w, c.label) && !is_flat(l, w, c.label),
{
    reveal(is_made_of_its_pixels);
    reveal(is_narrow);
    reveal(is_flat);
    lemma_made_of_pixels(l, w, h, c);
    lemma_box(l, w, c.label, l.len() as int);
    let x0 = choose|k: int| 0 <= k < l.len() && #[trigger] l[k] == c.label && k % w == c.min_x;
    let x1 = choose|k: int| 0 <= k < l.len() && #[trigger] l[k] == c.label && k % w == c.max_x;
    let y0 = choose|k: int| 0 <= k < l.len() && #[trigger] l[k] == c.label && k / w == c.min_y;
    let y1 = choose|k: int| 0 <= k < l.len() && #[trigger] l[k] == c.label && k / w == c.max_y;
    if is_narrow(l, w, c.label) {
        assert(x1 % w - x0 % w <= 1);
    }
    if is_flat(l, w, c.label) {
        assert(y1 / w - y0 / w <= 1);
    }
}

/// Whether a component is that of its label and whether it is large can be told from its
/// pixels.
spec fn is_told(c: Component, l: Seq<u32>, w: int) -> bool {
    &&& c.label != 0
    &&& is_made_of_its_pixels(c, l, w)
    &&& large_enough()(c) <==> !is_narrow(l, w, c.label) && !is_flat(l, w, c.label)
}

proof fn lemma_told(l: Seq<u32>, w: int, h: int, all: Seq<Component>, i: int)
    requires
        0 <= w <= u32::MAX,
        0 <= h <= u32::MAX,
        l.len() == w * h,
        l.len() <= usize::MAX,
        lists_components(all, l, w),
        0 <= i < all.len(),
    ensures
        is_told(all[i], l, w),
{
    let c = all[i];
    assert(component_of(l, w, c.label, l.len() as int) == Some(c));
    if w == 0 {
        assert(l.len() == 0) by (nonlinear_arith)
            requires
                l.len() == w * h,
                w == 0,
        ;
    }
    lemma_large(l, w, h, c);
}

/// Whether each label but zero is that of a component of a list, and of one alone.
spec fn is_complete(all: Seq<Component>, l: Seq<u32>) -> bool {
    &&& forall|k: int|
        0 <= k < l.len() && #[trigger] l[k] != 0 ==> exists|i: int|
            0 <= i < all.len() && (#[trigger] all[i]).label == l[k]
    &&& forall|i: int, j: int|
        0 <= i < j < all.len() ==> (#[trigger] all[i]).label != (#[trigger] all[j]).label
}

proof fn lemma_all_told(l: Seq<u32>, w: int, h: int, all: Seq<Component>)
    requires
        0 <= w <= u32::MAX,
        0 <= h <= u32::MAX,
        l.len() == w * h,
        l.len() <= usize::MAX,
        lists_components(all, l, w),
    ensures
        forall|i: int| 0 <= i < all.len() ==> is_told(#[trigger] all[i], l, w),
        is_complete(all, l),
{
    assert forall|i: int| 0 <= i < all.len() implies is_told(#[trigger] all[i], l, w) by {
        lemma_told(l, w, h, all, i);
    }
}

proof fn lemma_specks(l: Seq<u32>, w: int, all: Seq<Component>, kept: Seq<Component>)
    requires
        forall|i: int| 0 <= i < all.len() ==> is_told(#[trigger] all[i], l, w),
        is_complete(all, l),
        kept == all.filter(large_enough()),
    ensures
        forall|i: int|
            0 <= i < kept.len() ==> is_told(#[trigger] kept[i], l, w) && large_enough()(kept[i]),
        forall|k: int|
            0 <= k < l.len() && #[trigger] l[k] != 0 ==> is_narrow(l, w, l[k]) || is_flat(l, w, l[k])
                || exists|i: int| 0 <= i < kept.len() && (#[trigger] kept[i]).label == l[k],
        forall|i: int, j: int|
            0 <= i < j < kept.len() ==> (#[trigger] kept[i]).label != (#[trigger] kept[j]).label,
{
    let at = crate::order::filter_places(all, large_enough());
    assert forall|i: int| 0 <= i < kept.len() implies is_told(#[trigger] kept[i], l, w)
        && large_enough()(kept[i]) by {
        assert(kept[i] == all[at[i]]);
    }
    assert forall|k: int| 0 <= k < l.len() && #[trigger] l[k] != 0 implies is_narrow(l, w, l[k])
        || is_flat(l, w, l[k]) || exists|i: int|
        0 <= i < kept.len() && (#[trigger] kept[i]).label == l[k] by {
        let i = choose|i: int| 0 <= i < all.len() && (#[trigger] all[i]).label == l[k];
        assert(is_told(all[i], l, w));
        if large_enough()(all[i]) {
            assert(at.contains(i));
            let m = choose|m: int| 0 <= m < at.len() && at[m] == i;
            assert(kept[m] == all[at[m]]);
        }
    }
    assert forall|i: int, j: int| 0 <= i < j < kept.len() implies (#[trigger] kept[i]).label != (
    #[trigger] kept[j]).label by {
        assert(kept[i] == all[at[i]] && kept[j] == all[at[j]]);
        assert(at[i] < at[j]);
    }
}

/// The components that are handed out are those that fit neither in two columns nor in
/// two rows, each once and made of its pixels.
pub proof fn only_specks_are_left_out(prob: &Vec<Float32>, w: u32, h: u32, r: Detection)
    requires
        prob@.len() == w * h,
        prob@.len() < 0x1_0000_0000,
        prob@.len() != 1,
        w + h <= u32::MAX,
        call_ensures(find_components, (prob, w, h), r),
    ensures
        forall|i: int|
            0 <= i < r.components@.len() ==> (#[trigger] r.components@[i]).label != 0
                && is_made_of_its_pixels(r.components@[i], r.labels@, w as int) && !is_narrow(
                r.labels@,
                w as int,
                r.components@[i].label,
            ) && !is_flat(r.labels@, w as int, r.components@[i].label),
        forall|k: int|
            0 <= k < r.labels@.len() && #[trigger] r.labels@[k] != 0 ==> is_narrow(
                r.labels@,
                w as int,
                r.labels@[k],
            ) || is_flat(r.labels@, w as int, r.labels@[k]) || exists|i: int|
                0 <= i < r.components@.len() && (#[trigger] r.components@[i]).label == r.labels@[k],
        forall|i: int, j: int|
            0 <= i < j < r.components@.len() ==> (#[trigger] r.components@[i]).label != (
            #[trigger] r.components@[j]).label,
{
    let l = r.labels@;
    let v = w as int;
    assert(l.len() == prob@.len());
    assert(prob@.len() == prob.len());
    let all = choose|all: Seq<Component>|
        #[trigger] lists_components(all, l, v) && r.components@ == all.filter(large_enough());
    lemma_all_told(l, v, h as int, all);
    lemma_specks(l, v, all, r.components@);
    assert forall|i: int| 0 <= i < r.components@.len() implies (#[trigger] r.components@[i]).label
        != 0 && is_made_of_its_pixels(r.components@[i], l, v) && !is_narrow(
        l,
        v,
        r.components@[i].label,
    ) && !is_flat(l, v, r.components@[i].label) by {
        assert(is_told(r.components@[i], l, v));
    }
}

} // verus!
