//! The order on values is a total order: every value equals itself, only
//! equal values compare equal, swapping the operands reverses the result,
//! and the order is transitive.
use vstd::prelude::*;

use crate::value::{chars_order, float_key, list_order, node_order, pairs_order, rank, Node};

verus! {

proof fn lemma_char_code_injective(x: char, y: char)
    ensures
        (x as u32) == (y as u32) ==> x == y,
{
    vstd::utf8::char_u32_cast(x, x as u32);
    vstd::utf8::char_u32_cast(y, y as u32);
}

proof fn lemma_chars_refl(a: Seq<char>, i: int)
    requires
        0 <= i,
    ensures
        chars_order(a, a, i) == 0,
    decreases a.len() - i,
{
    if i < a.len() {
        lemma_chars_refl(a, i + 1);
    }
}

proof fn lemma_chars_eq(a: Seq<char>, b: Seq<char>, i: int)
    requires
        0 <= i,
        chars_order(a, b, i) == 0,
    ensures
        a.len() == b.len(),
        forall|k: int| i <= k < a.len() ==> a[k] == b[k],
    decreases a.len() - i,
{
    if i < a.len() && i < b.len() {
        lemma_char_code_injective(a[i], b[i]);
        lemma_chars_eq(a, b, i + 1);
    }
}

proof fn lemma_chars_converse(a: Seq<char>, b: Seq<char>, i: int)
    requires
        0 <= i,
    ensures
        chars_order(a, b, i) == -chars_order(b, a, i),
    decreases a.len() - i,
{
    if i < a.len() && i < b.len() && a[i] == b[i] {
        lemma_chars_converse(a, b, i + 1);
    }
    if i < a.len() && i < b.len() {
        lemma_char_code_injective(a[i], b[i]);
    }
}

proof fn lemma_chars_trans(a: Seq<char>, b: Seq<char>, c: Seq<char>, i: int)
    requires
        0 <= i,
        chars_order(a, b, i) <= 0,
        chars_order(b, c, i) <= 0,
    ensures
        chars_order(a, c, i) <= 0,
    decreases a.len() - i,
{
    if i < a.len() && i < b.len() && i < c.len() {
        lemma_char_code_injective(a[i], b[i]);
        lemma_char_code_injective(b[i], c[i]);
        lemma_char_code_injective(a[i], c[i]);
        if a[i] == b[i] && b[i] == c[i] {
            lemma_chars_trans(a, b, c, i + 1);
        }
    }
}

proof fn lemma_float_key_injective(x: u64, y: u64)
    ensures
        float_key(x) == float_key(y) ==> x == y,
{
}

/// Every node equals itself under the order.
pub proof fn order_reflexive(a: Node)
    ensures
        node_order(a, a) == 0,
    decreases a, 0int,
{
    match a {
        Node::Str(x) => lemma_chars_refl(x, 0),
        Node::List(xs) => list_reflexive(xs, 0),
        Node::Pairs(xs) => pairs_reflexive(xs, 0),
        Node::Tagged(t, inner) => {
            lemma_chars_refl(t, 0);
            order_reflexive(*inner);
        },
        _ => {},
    }
}

proof fn list_reflexive(xs: Seq<Node>, i: int)
    requires
        0 <= i,
    ensures
        list_order(xs, xs, i) == 0,
    decreases xs, xs.len() - i,
{
    if i < xs.len() {
        order_reflexive(xs[i]);
        list_reflexive(xs, i + 1);
    }
}

proof fn pairs_reflexive(xs: Seq<(Node, Node)>, i: int)
    requires
        0 <= i,
    ensures
        pairs_order(xs, xs, i) == 0,
    decreases xs, xs.len() - i,
{
    if i < xs.len() {
        assert(decreases_to!(xs => xs[i]));
        order_reflexive(xs[i].0);
        order_reflexive(xs[i].1);
        pairs_reflexive(xs, i + 1);
    }
}

/// Only equal nodes compare equal.
pub proof fn order_equal_is_identity(a: Node, b: Node)
    requires
        node_order(a, b) == 0,
    ensures
        a == b,
    decreases a, 0int,
{
    if rank(a) == rank(b) {
        match (a, b) {
            (Node::Float(x), Node::Float(y)) => lemma_float_key_injective(x, y),
            (Node::Str(x), Node::Str(y)) => {
                lemma_chars_eq(x, y, 0);
                assert(x =~= y);
            },
            (Node::List(xs), Node::List(ys)) => {
                list_equal_is_identity(xs, ys, 0);
                assert(xs =~= ys);
            },
            (Node::Pairs(xs), Node::Pairs(ys)) => {
                pairs_equal_is_identity(xs, ys, 0);
                assert(xs =~= ys);
            },
            (Node::Tagged(tx, ix), Node::Tagged(ty, iy)) => {
                lemma_chars_eq(tx, ty, 0);
                assert(tx =~= ty);
                order_equal_is_identity(*ix, *iy);
            },
            _ => {},
        }
    }
}

proof fn list_equal_is_identity(xs: Seq<Node>, ys: Seq<Node>, i: int)
    requires
        0 <= i,
        list_order(xs, ys, i) == 0,
    ensures
        xs.len() == ys.len(),
        forall|k: int| i <= k < xs.len() ==> xs[k] == ys[k],
    decreases xs, xs.len() - i,
{
    if i < xs.len() && i < ys.len() {
        order_equal_is_identity(xs[i], ys[i]);
        list_equal_is_identity(xs, ys, i + 1);
    }
}

proof fn pairs_equal_is_identity(xs: Seq<(Node, Node)>, ys: Seq<(Node, Node)>, i: int)
    requires
        0 <= i,
        pairs_order(xs, ys, i) == 0,
    ensures
        xs.len() == ys.len(),
        forall|k: int| i <= k < xs.len() ==> xs[k] == ys[k],
    decreases xs, xs.len() - i,
{
    if i < xs.len() && i < ys.len() {
        assert(decreases_to!(xs => xs[i]));
        order_equal_is_identity(xs[i].0, ys[i].0);
        order_equal_is_identity(xs[i].1, ys[i].1);
        pairs_equal_is_identity(xs, ys, i + 1);
    }
}

/// Swapping the operands reverses the comparison.
pub proof fn order_converse(a: Node, b: Node)
    ensures
        node_order(a, b) == -node_order(b, a),
    decreases a, 0int,
{
    if rank(a) == rank(b) {
        match (a, b) {
            (Node::Str(x), Node::Str(y)) => lemma_chars_converse(x, y, 0),
            (Node::List(xs), Node::List(ys)) => list_converse(xs, ys, 0),
            (Node::Pairs(xs), Node::Pairs(ys)) => pairs_converse(xs, ys, 0),
            (Node::Tagged(tx, ix), Node::Tagged(ty, iy)) => {
                lemma_chars_converse(tx, ty, 0);
                order_converse(*ix, *iy);
            },
            _ => {},
        }
    }
}

proof fn list_converse(xs: Seq<Node>, ys: Seq<Node>, i: int)
    requires
        0 <= i,
    ensures
        list_order(xs, ys, i) == -list_order(ys, xs, i),
    decreases xs, xs.len() - i,
{
    if i < xs.len() && i < ys.len() {
        order_converse(xs[i], ys[i]);
        list_converse(xs, ys, i + 1);
    }
}

proof fn pairs_converse(xs: Seq<(Node, Node)>, ys: Seq<(Node, Node)>, i: int)
    requires
        0 <= i,
    ensures
        pairs_order(xs, ys, i) == -pairs_order(ys, xs, i),
    decreases xs, xs.len() - i,
{
    if i < xs.len() && i < ys.len() {
        assert(decreases_to!(xs => xs[i]));
        order_converse(xs[i].0, ys[i].0);
        order_converse(xs[i].1, ys[i].1);
        pairs_converse(xs, ys, i + 1);
    }
}

/// The order is transitive.
pub proof fn order_transitive(a: Node, b: Node, c: Node)
    requires
        node_order(a, b) <= 0,
        node_order(b, c) <= 0,
    ensures
        node_order(a, c) <= 0,
    decreases a, 0int,
{
    if rank(a) == rank(b) && rank(b) == rank(c) {
        match (a, b, c) {
            (Node::Str(x), Node::Str(y), Node::Str(z)) => lemma_chars_trans(x, y, z, 0),
            (Node::List(xs), Node::List(ys), Node::List(zs)) => list_transitive(xs, ys, zs, 0),
            (Node::Pairs(xs), Node::Pairs(ys), Node::Pairs(zs)) => pairs_transitive(xs, ys, zs, 0),
            (Node::Tagged(tx, ix), Node::Tagged(ty, iy), Node::Tagged(tz, iz)) => {
                lemma_chars_trans(tx, ty, tz, 0);
                lemma_chars_converse(tx, tz, 0);
                if chars_order(tx, ty, 0) == 0 && chars_order(ty, tz, 0) == 0 {
                    lemma_chars_eq(tx, ty, 0);
                    lemma_chars_eq(ty, tz, 0);
                    assert(tx =~= tz);
                    order_transitive(*ix, *iy, *iz);
                } else if chars_order(tx, tz, 0) == 0 {
                    lemma_chars_eq(tx, tz, 0);
                    assert(tx =~= tz);
                    lemma_chars_converse(tx, ty, 0);
                }
            },
            _ => {},
        }
    }
}

/// Two nodes each at most the other are equal.
proof fn lemma_both_ways(x: Node, y: Node)
    requires
        node_order(x, y) <= 0,
        node_order(y, x) <= 0,
    ensures
        node_order(x, y) == 0,
        x == y,
{
    order_converse(x, y);
    order_equal_is_identity(x, y);
}

proof fn list_transitive(xs: Seq<Node>, ys: Seq<Node>, zs: Seq<Node>, i: int)
    requires
        0 <= i,
        list_order(xs, ys, i) <= 0,
        list_order(ys, zs, i) <= 0,
    ensures
        list_order(xs, zs, i) <= 0,
    decreases xs, xs.len() - i,
{
    if i < xs.len() && i < ys.len() && i < zs.len() {
        let c1 = node_order(xs[i], ys[i]);
        let c2 = node_order(ys[i], zs[i]);
        order_transitive(xs[i], ys[i], zs[i]);
        if node_order(xs[i], zs[i]) == 0 {
            order_equal_is_identity(xs[i], zs[i]);
            order_converse(ys[i], zs[i]);
            lemma_both_ways(xs[i], ys[i]);
            order_reflexive(ys[i]);
            list_transitive(xs, ys, zs, i + 1);
        }
    }
}

proof fn pairs_transitive(xs: Seq<(Node, Node)>, ys: Seq<(Node, Node)>, zs: Seq<(Node, Node)>, i: int)
    requires
        0 <= i,
        pairs_order(xs, ys, i) <= 0,
        pairs_order(ys, zs, i) <= 0,
    ensures
        pairs_order(xs, zs, i) <= 0,
    decreases xs, xs.len() - i,
{
    if i < xs.len() && i < ys.len() && i < zs.len() {
        assert(decreases_to!(xs => xs[i]));
        let (xk, xv) = xs[i];
        let (yk, yv) = ys[i];
        let (zk, zv) = zs[i];
        order_transitive(xk, yk, zk);
        if node_order(xk, zk) == 0 {
            order_equal_is_identity(xk, zk);
            order_converse(yk, zk);
            lemma_both_ways(xk, yk);
            order_transitive(xv, yv, zv);
            if node_order(xv, zv) == 0 {
                order_equal_is_identity(xv, zv);
                order_converse(yv, zv);
                lemma_both_ways(xv, yv);
                pairs_transitive(xs, ys, zs, i + 1);
            }
        }
    }
}

} // verus!
