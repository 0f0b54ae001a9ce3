//! Axis-aligned bounding boxes on the integer grid, and the node records they
//! are derived from.
//!
//! - [`point`] and [`square`]: points and boxes, with containment, overlap,
//!   hull, growth and Manhattan distance.
//! - [`attributes`] and [`ml_data`]: nodes and their attributes.
//! - [`selection`], [`correlation`], [`spatial`]: picking nodes by their
//!   attributes, scoring how far two nodes agree, and finding the nodes that
//!   a box meets.
//! - [`number`] and [`text`]: reading a coordinate and comparing names.
//!
//! Coordinates are 64-bit integers. What is in what, overlap and hull depend
//! on the order of the coordinates only (`square::lemma_order_decides`), so
//! a caller with coordinates of another kind can ask these of the library
//! through any numbering that keeps their order.
//!
//! Every executable function carries a contract over a mathematical model of
//! its arguments, and Verus proves each body against it.

pub mod attributes;
pub mod correlation;
pub mod ml_data;
pub mod number;
pub mod point;
pub mod selection;
pub mod spatial;
pub mod square;
pub mod text;

pub use attributes::AttributeMap;
pub use correlation::{best_matches, correlacion_nodo, correlate, correlation_vector, Ratio};
pub use ml_data::{default_fnz_id, MLData, MLDataContainer, Node, NodeView, TreeNode, TreeView};
pub use number::{parse_coordinate, NumberError};
pub use point::{Point, PointModel};
pub use selection::{encontrar_XX, filtrar_nodos, search_xx};
pub use spatial::{find_intersections, node_box, select_intersecting, BoxError};
pub use square::{Square, SquareModel};
pub use text::same_text;
