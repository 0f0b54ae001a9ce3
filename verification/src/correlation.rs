//! How far the attributes of two nodes agree, as a count over a total.

use crate::ml_data::Node;
use crate::text::same_text;
use vstd::prelude::*;

verus! {

/// A score as the two whole numbers it is made of: `count` of `total`. The
/// quotient is left to the caller; there is none where `total` is zero.
#[derive(Clone, Copy, Debug, PartialEq, Eq, Structural)]
pub struct Ratio {
    pub count: usize,
    pub total: usize,
}

impl Ratio {
    /// There is a quotient: the total is not zero.
    pub open spec fn is_scored(self) -> bool {
        self.total > 0
    }

    /// The quotient of `self` is at most that of `other`, where both have
    /// one: stated without dividing.
    pub open spec fn at_most(self, other: Ratio) -> bool {
        self.count * other.total <= other.count * self.total
    }
}

/// Position `i` holds a score with a quotient, and none has a greater one.
pub open spec fn is_best(scores: Seq<Ratio>, i: int) -> bool {
    &&& 0 <= i < scores.len()
    &&& scores[i].is_scored()
    &&& forall|j: int|
        0 <= j < scores.len() && (#[trigger] scores[j]).is_scored() ==> scores[j].at_most(scores[i])
}

/// Among scores that have a quotient, "at most" passes on.
proof fn lemma_at_most_passes_on(a: Ratio, b: Ratio, c: Ratio)
    requires
        a.is_scored(),
        b.is_scored(),
        c.is_scored(),
        a.at_most(b),
        b.at_most(c),
    ensures
        a.at_most(c),
{
    let (ac, at, bc, bt, cc, ct) = (
        a.count as int,
        a.total as int,
        b.count as int,
        b.total as int,
        c.count as int,
        c.total as int,
    );
    assert(ac * ct <= cc * at) by (nonlinear_arith)
        requires
            at > 0,
            bt > 0,
            ct > 0,
            ac >= 0,
            bc >= 0,
            cc >= 0,
            ac * bt <= bc * at,
            bc * ct <= cc * bt,
    {
        assert(ac * bt * ct <= bc * at * ct);
        assert(bc * ct * at <= cc * bt * at);
        assert(bc * at * ct == bc * ct * at);
        assert((ac * ct) * bt == ac * bt * ct);
        assert((cc * at) * bt == cc * bt * at);
        assert((ac * ct) * bt <= (cc * at) * bt);
    }
}

/// Of two scores, one is at most the other.
proof fn lemma_at_most_either_way(a: Ratio, b: Ratio)
    ensures
        a.at_most(b) || b.at_most(a),
{
}

/// Whether the quotient of `a` is at most that of `b`.
fn at_most(a: Ratio, b: Ratio) -> (r: bool)
    ensures
        r == a.at_most(b),
{
    let left: u128 = a.count as u128;
    let right: u128 = b.count as u128;
    let left_total: u128 = a.total as u128;
    let right_total: u128 = b.total as u128;
    assert(left * right_total <= 0xffff_ffff_ffff_ffff * 0xffff_ffff_ffff_ffff) by (nonlinear_arith)
        requires
            0 <= left <= 0xffff_ffff_ffff_ffff,
            0 <= right_total <= 0xffff_ffff_ffff_ffff,
    ;
    assert(right * left_total <= 0xffff_ffff_ffff_ffff * 0xffff_ffff_ffff_ffff) by (nonlinear_arith)
        requires
            0 <= right <= 0xffff_ffff_ffff_ffff,
            0 <= left_total <= 0xffff_ffff_ffff_ffff,
    ;
    left * right_total <= right * left_total
}

/// The positions of the scores whose quotient is the greatest, in rising
/// order. A score without a quotient is never among them, so there are none
/// where no score has one.
pub fn best_matches(scores: &Vec<Ratio>) -> (best: Vec<usize>)
    ensures
        forall|k: int| 0 <= k < best.len() ==> is_best(scores@, #[trigger] best@[k] as int),
        forall|i: int| is_best(scores@, i) ==> best@.contains(i as usize),
        forall|k: int, l: int| 0 <= k < l < best.len() ==> best@[k] < best@[l],
{
    let mut top: Option<usize> = None;
    let mut i: usize = 0;
    while i < scores.len()
        invariant
            i <= scores.len(),
            top matches Some(t) ==> t < i && scores@[t as int].is_scored() && forall|j: int|
                0 <= j < i && (#[trigger] scores@[j]).is_scored() ==> scores@[j].at_most(
                    scores@[t as int],
                ),
            top is None ==> forall|j: int| 0 <= j < i ==> !(#[trigger] scores@[j]).is_scored(),
        decreases scores.len() - i,
    {
        if scores[i].total > 0 {
            let better = match top {
                None => true,
                Some(t) => !at_most(scores[i], scores[t]),
            };
            if better {
                proof {
                    if let Some(t) = top {
                        lemma_at_most_either_way(scores@[i as int], scores@[t as int]);
                        assert forall|j: int|
                            0 <= j < i && (#[trigger] scores@[j]).is_scored() implies scores@[j].at_most(
                            scores@[i as int],
                        ) by {
                            lemma_at_most_passes_on(
                                scores@[j],
                                scores@[t as int],
                                scores@[i as int],
                            );
                        }
                    }
                }
                top = Some(i);
            }
        }
        i += 1;
    }
    let mut best: Vec<usize> = Vec::new();
    let t = match top {
        None => {
            return best;
        },
        Some(t) => t,
    };
    let mut i: usize = 0;
    while i < scores.len()
        invariant
            i <= scores.len(),
            t < scores.len(),
            is_best(scores@, t as int),
            forall|k: int| 0 <= k < best.len() ==> is_best(scores@, #[trigger] best@[k] as int),
            forall|k: int| 0 <= k < best.len() ==> #[trigger] best@[k] < i,
            forall|j: int| 0 <= j < i && is_best(scores@, j) ==> best@.contains(j as usize),
            forall|k: int, l: int| 0 <= k < l < best.len() ==> best@[k] < best@[l],
        decreases scores.len() - i,
    {
        if scores[i].total > 0 && at_most(scores[t], scores[i]) {
            proof {
                assert forall|j: int|
                    0 <= j < scores.len() && (#[trigger] scores@[j]).is_scored() implies scores@[j].at_most(
                    scores@[i as int],
                ) by {
                    lemma_at_most_passes_on(scores@[j], scores@[t as int], scores@[i as int]);
                }
            }
            let ghost before = best@;
            best.push(i);
            proof {
                assert forall|j: int| 0 <= j <= i && is_best(scores@, j) implies best@.contains(
                    j as usize,
                ) by {
                    if j < i {
                        let k = choose|k: int| 0 <= k < before.len() && before[k] == j as usize;
                        assert(best@[k] == j as usize);
                    } else {
                        assert(best@[best.len() - 1] == i);
                    }
                }
            }
        }
        i += 1;
    }
    best
}

/// The names that say where an element is drawn.
pub open spec fn is_box_key(k: Seq<char>) -> bool {
    k == "WH"@ || k == "LT"@ || k == "TP"@ || k == "HT"@
}

/// The names that say where an element is drawn, and the mark `XX`.
pub open spec fn is_reserved_key(k: Seq<char>) -> bool {
    is_box_key(k) || k == "XX"@
}

/// The test "is no reserved name".
pub open spec fn unreserved() -> spec_fn(Seq<char>) -> bool {
    |k: Seq<char>| !is_reserved_key(k)
}

/// The test "`b` has this name, with the value that `a` gives it".
pub open spec fn agreeing(a: Map<Seq<char>, Seq<char>>, b: Map<Seq<char>, Seq<char>>) -> spec_fn(
    Seq<char>,
) -> bool {
    |k: Seq<char>| b.contains_key(k) && b[k] == a[k]
}

/// The test "is no box name, and `b` has it with the value that `a` gives it".
pub open spec fn agreeing_outside_box(
    a: Map<Seq<char>, Seq<char>>,
    b: Map<Seq<char>, Seq<char>>,
) -> spec_fn(Seq<char>) -> bool {
    |k: Seq<char>| !is_box_key(k) && b.contains_key(k) && b[k] == a[k]
}

/// The test "is no box name".
pub open spec fn outside_box() -> spec_fn(Seq<char>) -> bool {
    |k: Seq<char>| !is_box_key(k)
}

/// The number of names of `a`, reserved or not, that `b` has with the same
/// value.
pub open spec fn shared_count(a: Map<Seq<char>, Seq<char>>, b: Map<Seq<char>, Seq<char>>) -> nat {
    a.dom().filter(agreeing(a, b)).len()
}

/// The names that a comparison of `a` with `b` counts: those of `a` that are
/// not reserved, and all those of `b`.
pub open spec fn compared_names(
    a: Map<Seq<char>, Seq<char>>,
    b: Map<Seq<char>, Seq<char>>,
) -> Set<Seq<char>> {
    a.dom().filter(unreserved()).union(b.dom())
}

/// The test "is not an unreserved name of `a`".
spec fn beyond(a: Map<Seq<char>, Seq<char>>) -> spec_fn(Seq<char>) -> bool {
    |k: Seq<char>| !(a.contains_key(k) && !is_reserved_key(k))
}

/// The compared names are the unreserved names of `a` and, apart from them,
/// the names of `b` that are none of those.
proof fn lemma_compared_names_len(a: Map<Seq<char>, Seq<char>>, b: Map<Seq<char>, Seq<char>>)
    requires
        a.dom().finite(),
        b.dom().finite(),
    ensures
        compared_names(a, b).len() == a.dom().filter(unreserved()).len() + b.dom().filter(
            beyond(a),
        ).len(),
{
    broadcast use vstd::set::group_set_axioms;

    let own = a.dom().filter(unreserved());
    let rest = b.dom().filter(beyond(a));
    assert(own.finite());
    assert(rest.finite());
    assert(own.disjoint(rest));
    assert(own + rest =~= compared_names(a, b));
    vstd::set_lib::lemma_set_disjoint_lens(own, rest);
}

/// One more name adds one to the count of those that meet `p`, or nothing.
proof fn lemma_count_step(keys: Seq<Seq<char>>, i: int, p: spec_fn(Seq<char>) -> bool)
    requires
        0 <= i < keys.len(),
    ensures
        keys.take(i + 1).filter(p).len() == keys.take(i).filter(p).len() + if p(keys[i]) {
            1nat
        } else {
            0nat
        },
        keys.take(i + 1).filter(p).len() <= i + 1,
{
    assert(keys.take(i + 1) =~= keys.take(i).push(keys[i]));
    Seq::lemma_filter_push(keys.take(i), keys[i], p);
    keys.take(i + 1).lemma_filter_len(p);
}

/// Of an empty run of names none meets `p`.
proof fn lemma_count_start(keys: Seq<Seq<char>>, p: spec_fn(Seq<char>) -> bool)
    ensures
        keys.take(0).filter(p).len() == 0,
{
    keys.take(0).lemma_filter_len(p);
}

/// Whether `key` is one of the four box names.
fn box_key(key: &String) -> (b: bool)
    ensures
        b == is_box_key(key@),
{
    let key = key.as_str();
    same_text(key, "WH") || same_text(key, "LT") || same_text(key, "TP") || same_text(key, "HT")
}

/// Whether `key` is a box name or the mark `XX`.
fn reserved_key(key: &String) -> (b: bool)
    ensures
        b == is_reserved_key(key@),
{
    box_key(key) || same_text(key.as_str(), "XX")
}

/// Whether `other` gives the name at position `i` of `node` the value that
/// `node` gives it.
fn agrees_at(node: &Node, i: usize, other: &Node) -> (b: bool)
    requires
        i < node.a.keys().len(),
    ensures
        b == agreeing(node@.a, other@.a)(node.a.keys()[i as int]),
{
    match other.a.get(node.a.key_at(i).as_str()) {
        Some(value) => same_text(value.as_str(), node.a.value_at(i).as_str()),
        None => false,
    }
}

/// Compares the attributes of two nodes.
///
/// `count` is the number of names of `node_1`, reserved or not, that
/// `node_2` has with the same value. `total` is the number of names that
/// are a name of `node_2` or a name of `node_1` that is not reserved. The
/// two nodes may not have more attributes together than a `usize` counts.
pub fn correlacion_nodo(node_1: &Node, node_2: &Node) -> (r: Ratio)
    requires
        node_1@.a.len() + node_2@.a.len() <= usize::MAX,
    ensures
        r.count == shared_count(node_1@.a, node_2@.a),
        r.total == compared_names(node_1@.a, node_2@.a).len(),
{
    let ghost keys_1 = node_1.a.keys();
    let ghost keys_2 = node_2.a.keys();
    let len_1 = node_1.a.len();
    let len_2 = node_2.a.len();
    let mut count: usize = 0;
    let mut own: usize = 0;
    let mut i: usize = 0;
    proof {
        lemma_count_start(keys_1, agreeing(node_1@.a, node_2@.a));
        lemma_count_start(keys_1, unreserved());
    }
    while i < len_1
        invariant
            i <= len_1,
            len_1 == keys_1.len(),
            keys_1 == node_1.a.keys(),
            count == keys_1.take(i as int).filter(agreeing(node_1@.a, node_2@.a)).len(),
            own == keys_1.take(i as int).filter(unreserved()).len(),
            count <= i,
            own <= i,
        decreases len_1 - i,
    {
        proof {
            lemma_count_step(keys_1, i as int, agreeing(node_1@.a, node_2@.a));
            lemma_count_step(keys_1, i as int, unreserved());
        }
        if !reserved_key(node_1.a.key_at(i)) {
            own += 1;
        }
        if agrees_at(node_1, i, node_2) {
            count += 1;
        }
        i += 1;
    }
    let mut extra: usize = 0;
    let mut j: usize = 0;
    proof {
        lemma_count_start(keys_2, beyond(node_1@.a));
    }
    while j < len_2
        invariant
            j <= len_2,
            len_2 == keys_2.len(),
            keys_2 == node_2.a.keys(),
            extra == keys_2.take(j as int).filter(beyond(node_1@.a)).len(),
            extra <= j,
        decreases len_2 - j,
    {
        proof {
            lemma_count_step(keys_2, j as int, beyond(node_1@.a));
        }
        let key = node_2.a.key_at(j);
        if !(node_1.a.contains_key(key.as_str()) && !reserved_key(key)) {
            extra += 1;
        }
        j += 1;
    }
    proof {
        use_type_invariant(&node_1.a);
        use_type_invariant(&node_2.a);
        assert(keys_1.take(len_1 as int) =~= keys_1);
        assert(keys_2.take(len_2 as int) =~= keys_2);
        node_1.a.lemma_keys();
        node_2.a.lemma_keys();
        node_1.a.lemma_count(agreeing(node_1@.a, node_2@.a));
        node_1.a.lemma_count(unreserved());
        node_2.a.lemma_count(beyond(node_1@.a));
        lemma_compared_names_len(node_1@.a, node_2@.a);
    }
    Ratio { count, total: own + extra }
}

/// Compares `node_org` with each node of `nodes_vecs` in turn, as
/// [`correlacion_nodo`] does.
pub fn correlation_vector(node_org: &Node, nodes_vecs: &Vec<Node>) -> (scores: Vec<Ratio>)
    requires
        forall|i: int|
            0 <= i < nodes_vecs.len() ==> node_org@.a.len() + (#[trigger] nodes_vecs@[i])@.a.len()
                <= usize::MAX,
    ensures
        scores.len() == nodes_vecs.len(),
        forall|i: int|
            0 <= i < nodes_vecs.len() ==> (#[trigger] scores@[i]).count == shared_count(
                node_org@.a,
                nodes_vecs@[i]@.a,
            ) && scores@[i].total == compared_names(node_org@.a, nodes_vecs@[i]@.a).len(),
{
    let mut scores: Vec<Ratio> = Vec::new();
    let mut i: usize = 0;
    while i < nodes_vecs.len()
        invariant
            i <= nodes_vecs.len(),
            scores.len() == i,
            forall|k: int|
                0 <= k < nodes_vecs.len() ==> node_org@.a.len() + (
                #[trigger] nodes_vecs@[k])@.a.len() <= usize::MAX,
            forall|k: int|
                0 <= k < i ==> (#[trigger] scores@[k]).count == shared_count(
                    node_org@.a,
                    nodes_vecs@[k]@.a,
                ) && scores@[k].total == compared_names(node_org@.a, nodes_vecs@[k]@.a).len(),
        decreases nodes_vecs.len() - i,
    {
        scores.push(correlacion_nodo(node_org, &nodes_vecs[i]));
        i += 1;
    }
    scores
}

/// Scores each node of `nodes` against `base_node`.
///
/// `total` is the number of names of `base_node` that are no box names, the
/// same for every node. `count` is the number of those that the node has
/// with the same value.
pub fn correlate(base_node: &Node, nodes: &Vec<Node>) -> (scores: Vec<Ratio>)
    ensures
        scores.len() == nodes.len(),
        forall|i: int|
            0 <= i < nodes.len() ==> (#[trigger] scores@[i]).count == base_node@.a.dom().filter(
                agreeing_outside_box(base_node@.a, nodes@[i]@.a),
            ).len() && scores@[i].total == base_node@.a.dom().filter(outside_box()).len(),
{
    let ghost keys = base_node.a.keys();
    let len = base_node.a.len();
    proof {
        use_type_invariant(&base_node.a);
        assert(keys.take(len as int) =~= keys);
    }
    let mut total: usize = 0;
    let mut i: usize = 0;
    proof {
        lemma_count_start(keys, outside_box());
    }
    while i < len
        invariant
            i <= len,
            len == keys.len(),
            keys == base_node.a.keys(),
            total == keys.take(i as int).filter(outside_box()).len(),
            total <= i,
        decreases len - i,
    {
        proof {
            lemma_count_step(keys, i as int, outside_box());
        }
        if !box_key(base_node.a.key_at(i)) {
            total += 1;
        }
        i += 1;
    }
    proof {
        base_node.a.lemma_count(outside_box());
    }
    let mut scores: Vec<Ratio> = Vec::new();
    let mut n: usize = 0;
    while n < nodes.len()
        invariant
            n <= nodes.len(),
            scores.len() == n,
            len == keys.len(),
            keys == base_node.a.keys(),
            base_node.a.inv(),
            keys.take(len as int) == keys,
            total == base_node@.a.dom().filter(outside_box()).len(),
            forall|k: int|
                0 <= k < n ==> (#[trigger] scores@[k]).count == base_node@.a.dom().filter(
                    agreeing_outside_box(base_node@.a, nodes@[k]@.a),
                ).len() && scores@[k].total == total,
        decreases nodes.len() - n,
    {
        let node = &nodes[n];
        let ghost same = agreeing_outside_box(base_node@.a, node@.a);
        let mut count: usize = 0;
        let mut i: usize = 0;
        proof {
            lemma_count_start(keys, same);
        }
        while i < len
            invariant
                i <= len,
                len == keys.len(),
                keys == base_node.a.keys(),
                same == agreeing_outside_box(base_node@.a, node@.a),
                count == keys.take(i as int).filter(same).len(),
                count <= i,
            decreases len - i,
        {
            proof {
                lemma_count_step(keys, i as int, same);
            }
            if !box_key(base_node.a.key_at(i)) && agrees_at(base_node, i, node) {
                count += 1;
            }
            i += 1;
        }
        proof {
            base_node.a.lemma_count(same);
        }
        scores.push(Ratio { count, total });
        n += 1;
    }
    scores
}

} // verus!
