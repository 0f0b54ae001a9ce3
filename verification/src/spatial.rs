//! The nodes whose box meets a given box.
//!
//! A node is drawn as a box that its attributes `TP`, `HT` and `WH` give:
//! `TP` is both coordinates of one corner, and the opposite corner lies `WH`
//! to the right of it and `HT` above it.

use crate::ml_data::{node_views, Node, NodeView};
use crate::number::{coordinate_of, parse_coordinate, NumberError};
use crate::point::{Point, PointModel};
use crate::square::{Square, SquareModel};
use vstd::prelude::*;

verus! {

/// Why a node has no box.
#[derive(Clone, Copy, Debug, PartialEq, Eq, Structural)]
pub enum BoxError {
    /// One of the three attributes is absent.
    Missing,
    /// The text of one of them is not a decimal integer.
    Malformed,
    /// One of them, or a corner of the box, is beyond the grid.
    OutOfRange,
}

/// The coordinate that the attribute `key` of a node gives, or why it gives
/// none.
pub open spec fn attribute_coordinate(a: Map<Seq<char>, Seq<char>>, key: Seq<char>) -> Result<
    i64,
    BoxError,
> {
    if !a.contains_key(key) {
        Err(BoxError::Missing)
    } else {
        match coordinate_of(a[key]) {
            Ok(v) => Ok(v),
            Err(NumberError::Malformed) => Err(BoxError::Malformed),
            Err(NumberError::OutOfRange) => Err(BoxError::OutOfRange),
        }
    }
}

/// The box of a node, or why it has none. The attributes are read in the
/// order `TP`, `HT`, `WH`, and the first that fails decides the error.
pub open spec fn box_of(v: NodeView) -> Result<SquareModel, BoxError> {
    match attribute_coordinate(v.a, "TP"@) {
        Err(e) => Err(e),
        Ok(tp) => match attribute_coordinate(v.a, "HT"@) {
            Err(e) => Err(e),
            Ok(ht) => match attribute_coordinate(v.a, "WH"@) {
                Err(e) => Err(e),
                Ok(wh) => if i64::MIN <= tp + wh <= i64::MAX && i64::MIN <= tp + ht <= i64::MAX {
                    Ok(
                        SquareModel::spanning(
                            PointModel { x: tp as int, y: tp as int },
                            PointModel { x: tp + wh, y: tp + ht },
                        ),
                    )
                } else {
                    Err(BoxError::OutOfRange)
                },
            },
        },
    }
}

/// The test "has a box, and `base` holds one of its corners".
pub open spec fn touching(base: SquareModel) -> spec_fn(NodeView) -> bool {
    |v: NodeView| box_of(v) matches Ok(b) && base.has_square(b)
}

/// The views of a sequence of boxes, in its order.
pub open spec fn square_views(boxes: Seq<Square>) -> Seq<SquareModel> {
    boxes.map_values(|s: Square| s@)
}

/// Of nodes and boxes that come in pairs, the nodes whose box has a corner
/// in `base`, in their order.
pub open spec fn selected(views: Seq<NodeView>, boxes: Seq<SquareModel>, base: SquareModel) -> Seq<
    NodeView,
>
    decreases views.len(),
{
    if views.len() == 0 || boxes.len() != views.len() {
        Seq::empty()
    } else {
        let before = selected(views.drop_last(), boxes.drop_last(), base);
        if base.has_square(boxes.last()) {
            before.push(views.last())
        } else {
            before
        }
    }
}

/// `part` is made of items of `whole`, each taken from a position of its
/// own, in the order in which they stand there.
pub open spec fn is_subsequence(part: Seq<NodeView>, whole: Seq<NodeView>) -> bool {
    exists|at: Seq<int>| #[trigger] embeds(part, whole, at)
}

/// `at` gives, for each item of `part`, a position of `whole` that holds it,
/// and these positions rise.
pub open spec fn embeds(part: Seq<NodeView>, whole: Seq<NodeView>, at: Seq<int>) -> bool {
    &&& at.len() == part.len()
    &&& forall|k: int| 0 <= k < at.len() ==> 0 <= #[trigger] at[k] < whole.len() && part[k] == whole[at[k]]
    &&& forall|k: int, l: int| 0 <= k < l < at.len() ==> #[trigger] at[k] < #[trigger] at[l]
}

/// Positions that rise within a sequence are no more than it has.
proof fn lemma_rising_len(at: Seq<int>, bound: int)
    requires
        forall|k: int| 0 <= k < at.len() ==> 0 <= #[trigger] at[k] < bound,
        forall|k: int, l: int| 0 <= k < l < at.len() ==> #[trigger] at[k] < #[trigger] at[l],
    ensures
        at.len() <= bound || at.len() == 0,
        forall|k: int| 0 <= k < at.len() ==> k <= #[trigger] at[k],
    decreases at.len(),
{
    if at.len() > 0 {
        let shorter = at.drop_last();
        lemma_rising_len(shorter, bound);
        assert forall|k: int| 0 <= k < at.len() implies k <= #[trigger] at[k] by {
            if k < at.len() - 1 {
                assert(shorter[k] == at[k]);
            } else if k > 0 {
                assert(shorter[k - 1] == at[k - 1]);
                assert(at[k - 1] < at[k]);
            }
        }
        assert(at.len() - 1 <= at[at.len() - 1]);
    }
}

/// A part of a sequence, in its order, is no longer than the sequence.
pub proof fn lemma_subsequence_len(part: Seq<NodeView>, whole: Seq<NodeView>)
    requires
        is_subsequence(part, whole),
    ensures
        part.len() <= whole.len(),
{
    let at = choose|at: Seq<int>| #[trigger] embeds(part, whole, at);
    lemma_rising_len(at, whole.len() as int);
}

/// What one more pair adds to the nodes selected from those before it.
proof fn lemma_selected_step(
    views: Seq<NodeView>,
    boxes: Seq<SquareModel>,
    base: SquareModel,
    i: int,
)
    requires
        0 <= i < views.len(),
        boxes.len() == views.len(),
    ensures
        selected(views.take(i + 1), boxes.take(i + 1), base) == if base.has_square(boxes[i]) {
            selected(views.take(i), boxes.take(i), base).push(views[i])
        } else {
            selected(views.take(i), boxes.take(i), base)
        },
{
    assert(views.take(i + 1).drop_last() =~= views.take(i));
    assert(boxes.take(i + 1).drop_last() =~= boxes.take(i));
}

/// Where each box is the box of its node, the selected nodes are those
/// that meet [`touching`].
pub proof fn lemma_selected_is_filter(
    views: Seq<NodeView>,
    boxes: Seq<SquareModel>,
    base: SquareModel,
)
    requires
        boxes.len() == views.len(),
        forall|i: int| 0 <= i < views.len() ==> box_of(#[trigger] views[i]) == Ok::<
            SquareModel,
            BoxError,
        >(boxes[i]),
    ensures
        selected(views, boxes, base) == views.filter(touching(base)),
    decreases views.len(),
{
    reveal(Seq::filter);
    if views.len() > 0 {
        lemma_selected_is_filter(views.drop_last(), boxes.drop_last(), base);
        assert(box_of(views[views.len() - 1]) == Ok::<SquareModel, BoxError>(
            boxes[views.len() - 1],
        ));
    }
}

/// The coordinate that the attribute `key` of `node` gives.
fn coordinate(node: &Node, key: &str) -> (r: Result<i64, BoxError>)
    ensures
        r == attribute_coordinate(node@.a, key@),
{
    match node.a.get(key) {
        None => Err(BoxError::Missing),
        Some(text) => match parse_coordinate(text.as_str()) {
            Ok(v) => Ok(v),
            Err(NumberError::Malformed) => Err(BoxError::Malformed),
            Err(NumberError::OutOfRange) => Err(BoxError::OutOfRange),
        },
    }
}

/// The box of `node`: one corner at `(TP, TP)`, the opposite one at
/// `(TP + WH, TP + HT)`. There is none where one of the three attributes is
/// absent or no decimal integer, or where a corner leaves the grid.
pub fn node_box(node: &Node) -> (r: Result<Square, BoxError>)
    ensures
        match r {
            Ok(b) => box_of(node@) == Ok::<SquareModel, BoxError>(b@),
            Err(e) => box_of(node@) == Err::<SquareModel, BoxError>(e),
        },
{
    let tp: i64 = match coordinate(node, "TP") {
        Ok(v) => v,
        Err(e) => {
            return Err(e);
        },
    };
    let ht: i64 = match coordinate(node, "HT") {
        Ok(v) => v,
        Err(e) => {
            return Err(e);
        },
    };
    let wh: i64 = match coordinate(node, "WH") {
        Ok(v) => v,
        Err(e) => {
            return Err(e);
        },
    };
    match (tp.checked_add(wh), tp.checked_add(ht)) {
        (Some(x), Some(y)) => Ok(Square::new(Point::new(tp, tp), Point::new(x, y))),
        _ => Err(BoxError::OutOfRange),
    }
}

/// Of `nodes` and `boxes` that come in pairs, the nodes whose box has a
/// corner in `base` or on its boundary, in the order in which they came. A
/// node that comes twice is returned twice.
pub fn select_intersecting(base: &Square, nodes: &Vec<Node>, boxes: &Vec<Square>) -> (out: Vec<
    Node,
>)
    requires
        boxes.len() == nodes.len(),
    ensures
        node_views(out@) == selected(node_views(nodes@), square_views(boxes@), base@),
        is_subsequence(node_views(out@), node_views(nodes@)),
        out.len() <= nodes.len(),
{
    let ghost views = node_views(nodes@);
    let ghost shapes = square_views(boxes@);
    let ghost mut at: Seq<int> = Seq::empty();
    let mut out: Vec<Node> = Vec::new();
    let mut i: usize = 0;
    assert(node_views(out@) =~= Seq::<NodeView>::empty());
    assert(views.take(0) =~= Seq::<NodeView>::empty());
    while i < nodes.len()
        invariant
            i <= nodes.len(),
            boxes.len() == nodes.len(),
            views == node_views(nodes@),
            shapes == square_views(boxes@),
            node_views(out@) == selected(views.take(i as int), shapes.take(i as int), base@),
            embeds(node_views(out@), views, at),
            forall|k: int| 0 <= k < at.len() ==> #[trigger] at[k] < i,
        decreases nodes.len() - i,
    {
        proof {
            lemma_selected_step(views, shapes, base@, i as int);
        }
        if base.has_square(&boxes[i]) {
            let ghost before = out@;
            let ghost at_before = at;
            out.push(nodes[i].clone());
            proof {
                at = at_before.push(i as int);
                assert(node_views(out@) =~= node_views(before).push(views[i as int]));
                assert forall|k: int, l: int| 0 <= k < l < at.len() implies #[trigger] at[k]
                    < #[trigger] at[l] by {
                    if l < at_before.len() {
                        assert(at_before[k] < at_before[l]);
                    } else {
                        assert(at_before[k] < i);
                    }
                }
                assert forall|k: int| 0 <= k < at.len() implies 0 <= #[trigger] at[k] < views.len()
                    && node_views(out@)[k] == views[at[k]] by {
                    if k < at_before.len() {
                        assert(0 <= at_before[k] < views.len());
                        assert(node_views(before)[k] == views[at_before[k]]);
                    }
                }
            }
        }
        i += 1;
    }
    proof {
        assert(views.take(nodes.len() as int) =~= views);
        assert(shapes.take(nodes.len() as int) =~= shapes);
        lemma_subsequence_len(node_views(out@), views);
    }
    out
}

/// Position `i` holds the first node that has no box.
pub open spec fn is_first_unboxed(views: Seq<NodeView>, i: int) -> bool {
    &&& 0 <= i < views.len()
    &&& box_of(views[i]) is Err
    &&& forall|j: int| 0 <= j < i ==> box_of(#[trigger] views[j]) is Ok
}

/// The nodes whose box has a corner in `base` or on its boundary, in the
/// order in which they came; a node that comes twice is returned twice.
///
/// Where a node has no box nothing is returned but the reason, that of the
/// first such node.
pub fn find_intersections(base: &Square, nodes: &Vec<Node>) -> (r: Result<Vec<Node>, BoxError>)
    ensures
        match r {
            Ok(out) => {
                &&& forall|i: int| 0 <= i < nodes.len() ==> box_of(#[trigger] nodes@[i]@) is Ok
                &&& node_views(out@) == node_views(nodes@).filter(touching(base@))
                &&& is_subsequence(node_views(out@), node_views(nodes@))
                &&& out.len() <= nodes.len()
            },
            Err(e) => exists|i: int|
                is_first_unboxed(node_views(nodes@), i) && box_of(nodes@[i]@) == Err::<
                    SquareModel,
                    BoxError,
                >(e),
        },
{
    let ghost views = node_views(nodes@);
    let mut boxes: Vec<Square> = Vec::new();
    let mut i: usize = 0;
    while i < nodes.len()
        invariant
            i <= nodes.len(),
            views == node_views(nodes@),
            boxes.len() == i,
            forall|j: int| 0 <= j < i ==> box_of(#[trigger] views[j]) == Ok::<
                SquareModel,
                BoxError,
            >(boxes@[j]@),
        decreases nodes.len() - i,
    {
        match node_box(&nodes[i]) {
            Ok(b) => {
                boxes.push(b);
            },
            Err(e) => {
                assert(is_first_unboxed(node_views(nodes@), i as int) && box_of(nodes@[i as int]@)
                    == Err::<SquareModel, BoxError>(e));
                return Err(e);
            },
        }
        i += 1;
    }
    let out = select_intersecting(base, nodes, &boxes);
    proof {
        lemma_selected_is_filter(views, square_views(boxes@), base@);
        assert forall|j: int| 0 <= j < nodes.len() implies box_of(#[trigger] nodes@[j]@) is Ok by {
            assert(box_of(views[j]) is Ok);
        }
    }
    Ok(out)
}

} // verus!
