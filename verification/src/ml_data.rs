//! Node records and the containers they come in.

use crate::attributes::AttributeMap;
use crate::text::same_text;
use vstd::prelude::*;
use vstd::std_specs::cmp::PartialEqSpecImpl;

verus! {

/// A node as a mathematical value.
pub struct NodeView {
    pub i: Seq<char>,
    pub fnz_id: Seq<char>,
    pub a: Map<Seq<char>, Seq<char>>,
}

/// An element of the data set: its identifier `i`, a second identifier that
/// is `"-1"` where the data set gives none, and its attributes `a`.
#[derive(Debug)]
pub struct Node {
    pub i: String,
    pub fnz_id: String,
    pub a: AttributeMap,
}

impl View for Node {
    type V = NodeView;

    open spec fn view(&self) -> NodeView {
        NodeView { i: self.i@, fnz_id: self.fnz_id@, a: self.a@ }
    }
}

/// The views of a sequence of nodes, in its order.
pub open spec fn node_views(nodes: Seq<Node>) -> Seq<NodeView> {
    nodes.map_values(|n: Node| n@)
}

/// The second identifier of a node for which the data set gives none.
pub fn default_fnz_id() -> (id: String)
    ensures
        id@ == "-1"@,
{
    "-1".to_owned()
}

impl Clone for Node {
    fn clone(&self) -> (n: Node)
        ensures
            n@ == self@,
    {
        Node { i: self.i.clone(), fnz_id: self.fnz_id.clone(), a: self.a.clone() }
    }
}

impl PartialEqSpecImpl for Node {
    open spec fn obeys_eq_spec() -> bool {
        true
    }

    /// Two nodes are equal when their identifiers agree and their
    /// attributes are the same map.
    open spec fn eq_spec(&self, other: &Node) -> bool {
        self@ == other@
    }
}

impl PartialEq for Node {
    fn eq(&self, other: &Node) -> (r: bool) {
        same_text(self.i.as_str(), other.i.as_str()) && same_text(
            self.fnz_id.as_str(),
            other.fnz_id.as_str(),
        ) && self.a == other.a
    }
}

/// An element of the tree of identifiers: an identifier and, where it has
/// any, its children.
#[derive(Debug, PartialEq, Eq)]
pub struct TreeNode {
    pub i: String,
    pub c: Option<Vec<TreeNode>>,
}

/// A tree of identifiers as a mathematical value.
pub struct TreeView {
    pub i: Seq<char>,
    pub c: Option<Seq<TreeView>>,
}

/// The view of a tree: its identifier and the views of its children.
pub open spec fn tree_view(t: TreeNode) -> TreeView
    decreases t,
{
    TreeView {
        i: t.i@,
        c: match t.c {
            None => None,
            Some(children) => Some(
                Seq::new(
                    children@.len(),
                    |k: int|
                        if 0 <= k < children@.len() {
                            proof {
                                vstd::std_specs::vec::axiom_vec_index_decreases(children, k);
                            }
                            tree_view(children[k])
                        } else {
                            arbitrary()
                        },
                ),
            ),
        },
    }
}

impl View for TreeNode {
    type V = TreeView;

    open spec fn view(&self) -> TreeView {
        tree_view(*self)
    }
}

impl Clone for TreeNode {
    fn clone(&self) -> (t: TreeNode)
        ensures
            t@ == self@,
        decreases self,
    {
        match &self.c {
            None => TreeNode { i: self.i.clone(), c: None },
            Some(children) => {
                let mut copies: Vec<TreeNode> = Vec::new();
                let mut k: usize = 0;
                while k < children.len()
                    invariant
                        k <= children.len(),
                        self.c == Some(*children),
                        copies.len() == k,
                        forall|j: int| 0 <= j < k ==> (#[trigger] copies@[j])@ == children@[j]@,
                    decreases children.len() - k,
                {
                    proof {
                        vstd::std_specs::vec::axiom_vec_index_decreases(*children, k as int);
                        assert(self.c->0 == *children);
                    }
                    copies.push(children[k].clone());
                    k += 1;
                }
                let t = TreeNode { i: self.i.clone(), c: Some(copies) };
                assert(t@.c->0 =~= self@.c->0);
                t
            },
        }
    }
}

/// The nodes of a data set and the tree that arranges their identifiers.
#[derive(Debug, Clone, PartialEq)]
pub struct MLData {
    pub nodes: Vec<Node>,
    pub tree: Vec<TreeNode>,
}

/// A data set as it is stored: the statistics of its elements.
#[derive(Debug)]
pub struct MLDataContainer {
    pub element_statistics: MLData,
}

} // verus!
