//! Picking nodes out of a data set by the attributes they have.

use crate::ml_data::{node_views, MLDataContainer, Node, NodeView};
use vstd::prelude::*;

verus! {

/// The test "has an attribute named `key`", on the view of a node.
pub open spec fn has_attribute(key: Seq<char>) -> spec_fn(NodeView) -> bool {
    |v: NodeView| v.a.contains_key(key)
}

/// Position `i` holds the first node with an attribute named `key`.
pub open spec fn is_first_with(views: Seq<NodeView>, key: Seq<char>, i: int) -> bool {
    &&& 0 <= i < views.len()
    &&& views[i].a.contains_key(key)
    &&& forall|j: int| 0 <= j < i ==> !(#[trigger] views[j]).a.contains_key(key)
}

/// Position `i` holds the last node with an attribute named `key`.
pub open spec fn is_last_with(views: Seq<NodeView>, key: Seq<char>, i: int) -> bool {
    &&& 0 <= i < views.len()
    &&& views[i].a.contains_key(key)
    &&& forall|j: int| i < j < views.len() ==> !(#[trigger] views[j]).a.contains_key(key)
}

/// No node has an attribute named `key`.
pub open spec fn none_with(views: Seq<NodeView>, key: Seq<char>) -> bool {
    forall|j: int| 0 <= j < views.len() ==> !(#[trigger] views[j]).a.contains_key(key)
}

/// What one more node adds to the nodes picked from those before it.
proof fn lemma_filter_step(nodes: Seq<Node>, i: int, pick: spec_fn(NodeView) -> bool)
    requires
        0 <= i < nodes.len(),
    ensures
        node_views(nodes.take(i + 1)).filter(pick) == if pick(nodes[i]@) {
            node_views(nodes.take(i)).filter(pick).push(nodes[i]@)
        } else {
            node_views(nodes.take(i)).filter(pick)
        },
{
    assert(nodes.take(i + 1) =~= nodes.take(i).push(nodes[i]));
    assert(node_views(nodes.take(i).push(nodes[i])) =~= node_views(nodes.take(i)).push(nodes[i]@));
    Seq::lemma_filter_push(node_views(nodes.take(i)), nodes[i]@, pick);
}

/// The nodes of `data` that have an attribute named `tag`, in the order of
/// the data set; a node that occurs twice there is returned twice.
pub fn filtrar_nodos(tag: &String, data: &MLDataContainer) -> (out: Vec<Node>)
    ensures
        node_views(out@) == node_views(data.element_statistics.nodes@).filter(has_attribute(tag@)),
{
    let nodes = &data.element_statistics.nodes;
    let mut out: Vec<Node> = Vec::new();
    let mut i: usize = 0;
    assert(node_views(nodes@.take(0)).filter(has_attribute(tag@)) =~= node_views(out@)) by {
        reveal(Seq::filter);
    }
    while i < nodes.len()
        invariant
            i <= nodes.len(),
            node_views(out@) == node_views(nodes@.take(i as int)).filter(has_attribute(tag@)),
        decreases nodes.len() - i,
    {
        proof {
            lemma_filter_step(nodes@, i as int, has_attribute(tag@));
        }
        if nodes[i].a.contains_key(tag.as_str()) {
            let ghost before = out@;
            out.push(nodes[i].clone());
            assert(node_views(out@) =~= node_views(before).push(nodes@[i as int]@));
        }
        i += 1;
    }
    assert(nodes@.take(nodes.len() as int) =~= nodes@);
    out
}

/// The first node of `data` that has an attribute named `XX`, if one has.
#[allow(non_snake_case)]
pub fn encontrar_XX(data: &MLDataContainer) -> (found: Option<Node>)
    ensures
        match found {
            Some(n) => exists|i: int|
                is_first_with(node_views(data.element_statistics.nodes@), "XX"@, i) && n@
                    == data.element_statistics.nodes@[i]@,
            None => none_with(node_views(data.element_statistics.nodes@), "XX"@),
        },
{
    let nodes = &data.element_statistics.nodes;
    let ghost views = node_views(nodes@);
    let mut i: usize = 0;
    while i < nodes.len()
        invariant
            i <= nodes.len(),
            *nodes == data.element_statistics.nodes,
            views == node_views(nodes@),
            forall|j: int| 0 <= j < i ==> !(#[trigger] views[j]).a.contains_key("XX"@),
        decreases nodes.len() - i,
    {
        if nodes[i].a.contains_key("XX") {
            let n = nodes[i].clone();
            assert(is_first_with(node_views(data.element_statistics.nodes@), "XX"@, i as int) && n@
                == data.element_statistics.nodes@[i as int]@);
            return Some(n);
        }
        i += 1;
    }
    None
}

/// The last node of `nodes` that has an attribute named `XX`; where none
/// has, the second node. There have to be two nodes at least, whether or
/// not one of them is marked.
pub fn search_xx(nodes: &Vec<Node>) -> (found: Node)
    requires
        nodes.len() >= 2,
    ensures
        forall|i: int| is_last_with(node_views(nodes@), "XX"@, i) ==> found@ == nodes@[i]@,
        none_with(node_views(nodes@), "XX"@) ==> found@ == nodes@[1]@,
        exists|i: int| 0 <= i < nodes.len() && found@ == nodes@[i]@,
{
    let ghost views = node_views(nodes@);
    let mut at: usize = 1;
    let mut seen = false;
    let mut i: usize = 0;
    while i < nodes.len()
        invariant
            i <= nodes.len(),
            nodes.len() >= 2,
            views == node_views(nodes@),
            at < nodes.len(),
            !seen ==> at == 1 && forall|j: int|
                0 <= j < i ==> !(#[trigger] views[j]).a.contains_key("XX"@),
            seen ==> at < i && views[at as int].a.contains_key("XX"@) && forall|j: int|
                at < j < i ==> !(#[trigger] views[j]).a.contains_key("XX"@),
        decreases nodes.len() - i,
    {
        if nodes[i].a.contains_key("XX") {
            at = i;
            seen = true;
        }
        i += 1;
    }
    proof {
        if seen {
            assert(is_last_with(views, "XX"@, at as int));
            assert forall|k: int| is_last_with(views, "XX"@, k) implies k == at by {
                if k < at {
                    assert(!views[at as int].a.contains_key("XX"@));
                }
            }
        } else {
            assert forall|k: int| !is_last_with(views, "XX"@, k) by {
                if 0 <= k < views.len() {
                    assert(!views[k].a.contains_key("XX"@));
                }
            }
        }
    }
    nodes[at].clone()
}

} // verus!
