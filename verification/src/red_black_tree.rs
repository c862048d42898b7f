//! An ordered map backed by a red-black tree.
//!
//! The tree keeps four structural invariants: binary-search order, no red
//! node with a red child, a uniform number of black nodes on every path from
//! the root down to a leaf, and a black root. Together they bound the height
//! logarithmically in the number of entries. The abstract view of the
//! container is a `Map<u64, u64>`, and every public operation is specified
//! against that view.

use vstd::prelude::*;
use vstd::set_lib::lemma_set_disjoint_lens;

verus! {

/// Colour tag carried by every node.
#[derive(Clone, Copy, PartialEq, Eq, Structural)]
enum Color {
    Red,
    Black,
}

/// An owned subtree: empty, or a coloured node with a key, a value and two
/// children. Children own their subtrees outright, so no parent links are
/// needed; rebalancing rebuilds the affected spine instead.
enum Tree {
    Leaf,
    Node { color: Color, key: u64, value: u64, left: Box<Tree>, right: Box<Tree> },
}

impl Tree {
    /// The key-value map stored in this subtree.
    spec fn as_map(self) -> Map<u64, u64>
        decreases self,
    {
        match self {
            Tree::Leaf => Map::empty(),
            Tree::Node { key, value, left, right, .. } => left.as_map().union_prefer_right(
                right.as_map(),
            ).insert(key, value),
        }
    }

    /// Binary-search order: keys on the left are smaller, keys on the right
    /// are greater, recursively.
    spec fn bst_ordered(self) -> bool
        decreases self,
    {
        match self {
            Tree::Leaf => true,
            Tree::Node { key, left, right, .. } => {
                &&& (forall|e: u64| #[trigger] left.as_map().dom().contains(e) ==> e < key)
                &&& (forall|e: u64| #[trigger] right.as_map().dom().contains(e) ==> e > key)
                &&& left.bst_ordered()
                &&& right.bst_ordered()
            },
        }
    }

    /// The colour of the root; an empty subtree counts as black.
    spec fn color(self) -> Color {
        match self {
            Tree::Leaf => Color::Black,
            Tree::Node { color, .. } => color,
        }
    }

    /// Number of black nodes on the path down the left spine.
    spec fn black_height(self) -> nat
        decreases self,
    {
        match self {
            Tree::Leaf => 0,
            Tree::Node { color, left, .. } => left.black_height() + if color == Color::Black {
                1nat
            } else {
                0nat
            },
        }
    }

    /// Every path from a node to a leaf below it crosses the same number of
    /// black nodes.
    spec fn black_balanced(self) -> bool
        decreases self,
    {
        match self {
            Tree::Leaf => true,
            Tree::Node { left, right, .. } => {
                &&& left.black_height() == right.black_height()
                &&& left.black_balanced()
                &&& right.black_balanced()
            },
        }
    }

    /// No red node has a red child.
    spec fn no_red_red(self) -> bool
        decreases self,
    {
        match self {
            Tree::Leaf => true,
            Tree::Node { color, left, right, .. } => {
                &&& (color == Color::Red ==> left.color() == Color::Black && right.color()
                    == Color::Black)
                &&& left.no_red_red()
                &&& right.no_red_red()
            },
        }
    }

    /// Both children are free of red-red violations; the root itself may
    /// still clash with a red child. This is the relaxed shape that the
    /// rebalancing helpers accept and repair.
    spec fn no_red_red_below(self) -> bool {
        match self {
            Tree::Leaf => true,
            Tree::Node { left, right, .. } => left.no_red_red() && right.no_red_red(),
        }
    }

    /// Number of nodes in the subtree.
    spec fn size(self) -> nat
        decreases self,
    {
        match self {
            Tree::Leaf => 0,
            Tree::Node { left, right, .. } => 1 + left.size() + right.size(),
        }
    }

    /// The key-value pairs in ascending key order.
    spec fn in_order(self) -> Seq<(u64, u64)>
        decreases self,
    {
        match self {
            Tree::Leaf => Seq::empty(),
            Tree::Node { key, value, left, right, .. } => left.in_order() + seq![(key, value)]
                + right.in_order(),
        }
    }

    /// Number of nodes on the longest path from the root down to a leaf.
    spec fn height(self) -> nat
        decreases self,
    {
        match self {
            Tree::Leaf => 0,
            Tree::Node { left, right, .. } => 1 + if left.height() >= right.height() {
                left.height()
            } else {
                right.height()
            },
        }
    }
}

/// The colour rules squeeze the height: no path holds two reds in a row, so
/// the longest path is at most twice the black height, plus one for a red
/// root.
proof fn lemma_height_le_black_height(t: Tree)
    requires
        t.no_red_red(),
        t.black_balanced(),
    ensures
        t.color() == Color::Black ==> t.height() <= 2 * t.black_height(),
        t.height() <= 2 * t.black_height() + 1,
    decreases t,
{
    match t {
        Tree::Leaf => {},
        Tree::Node { left, right, .. } => {
            lemma_height_le_black_height(*left);
            lemma_height_le_black_height(*right);
        },
    }
}

/// The black height bounds the size from below: every path crosses
/// `black_height` black nodes, so the tree holds at least a full binary
/// tree of that depth.
proof fn lemma_size_ge_pow2_black_height(t: Tree)
    requires
        t.black_balanced(),
    ensures
        t.size() + 1 >= vstd::arithmetic::power2::pow2(t.black_height()),
    decreases t,
{
    match t {
        Tree::Leaf => {
            vstd::arithmetic::power2::lemma2_to64();
        },
        Tree::Node { color, left, right, .. } => {
            lemma_size_ge_pow2_black_height(*left);
            lemma_size_ge_pow2_black_height(*right);
            let bl = left.black_height();
            if color == Color::Black {
                assert(t.black_height() == bl + 1);
                vstd::arithmetic::power2::lemma_pow2_adds(bl, 1);
                vstd::arithmetic::power2::lemma2_to64();
            }
        },
    }
}

/// The facts about a binary-search-ordered subtree that the public contracts
/// rest on: its key set is finite, the in-order walk visits exactly the
/// entries of the map, strictly ascending by key, and its length equals the
/// number of keys.
proof fn lemma_in_order_facts(t: Tree)
    requires
        t.bst_ordered(),
    ensures
        t.as_map().dom().finite(),
        t.as_map().dom().len() == t.in_order().len(),
        t.in_order().len() == t.size(),
        forall|i: int|
            0 <= i < t.in_order().len() ==> #[trigger] t.as_map().contains_pair(
                t.in_order()[i].0,
                t.in_order()[i].1,
            ),
        forall|i: int, j: int|
            0 <= i < j < t.in_order().len() ==> t.in_order()[i].0 < t.in_order()[j].0,
    decreases t,
{
    match t {
        Tree::Leaf => {
            assert(t.as_map().dom() =~= Set::<u64>::empty());
        },
        Tree::Node { color, key, value, left, right } => {
            lemma_in_order_facts(*left);
            lemma_in_order_facts(*right);
            let lm = left.as_map();
            let rm = right.as_map();
            assert(t.as_map().dom() =~= lm.dom().union(rm.dom()).insert(key));
            assert(lm.dom().disjoint(rm.dom())) by {
                assert forall|e: u64| lm.dom().contains(e) implies !rm.dom().contains(e) by {
                    assert(e < key);
                }
            }
            lemma_set_disjoint_lens(lm.dom(), rm.dom());
            assert(lm.dom().union(rm.dom()) == lm.dom() + rm.dom());
            assert(!(lm.dom() + rm.dom()).contains(key));
            let s = t.in_order();
            let ls = left.in_order();
            let rs = right.in_order();
            assert forall|i: int| 0 <= i < s.len() implies #[trigger] t.as_map().contains_pair(
                s[i].0,
                s[i].1,
            ) by {
                if i < ls.len() {
                    assert(s[i] == ls[i]);
                    assert(lm.contains_pair(ls[i].0, ls[i].1));
                    assert(ls[i].0 < key);
                    assert(!rm.dom().contains(ls[i].0));
                } else if i == ls.len() {
                    assert(s[i] == (key, value));
                } else {
                    let j = i - ls.len() - 1;
                    assert(s[i] == rs[j]);
                    assert(rm.contains_pair(rs[j].0, rs[j].1));
                    assert(rs[j].0 > key);
                }
            }
            assert forall|i: int, j: int| 0 <= i < j < s.len() implies s[i].0 < s[j].0 by {
                if i < ls.len() {
                    assert(s[i] == ls[i]);
                    assert(lm.contains_pair(ls[i].0, ls[i].1));
                    assert(s[i].0 < key);
                } else if i > ls.len() {
                    assert(s[i] == rs[i - ls.len() - 1]);
                    assert(rm.contains_pair(rs[i - ls.len() - 1].0, rs[i - ls.len() - 1].1));
                    assert(s[i].0 > key);
                }
                if j < ls.len() {
                    assert(s[j] == ls[j]);
                    assert(lm.contains_pair(ls[j].0, ls[j].1));
                    assert(s[j].0 < key);
                } else if j > ls.len() {
                    assert(s[j] == rs[j - ls.len() - 1]);
                    assert(rm.contains_pair(rs[j - ls.len() - 1].0, rs[j - ls.len() - 1].1));
                    assert(s[j].0 > key);
                }
                if i < ls.len() && j < ls.len() {
                    assert(ls[i].0 < ls[j].0);
                } else if i > ls.len() && j > ls.len() {
                    assert(rs[i - ls.len() - 1].0 < rs[j - ls.len() - 1].0);
                }
            }
        },
    }
}

/// The map of a node built from `lm`, a key-value pair, and `rm`.
spec fn combined_map(lm: Map<u64, u64>, k: u64, v: u64, rm: Map<u64, u64>) -> Map<u64, u64> {
    lm.union_prefer_right(rm).insert(k, v)
}

/// A rotation does not change the stored map: regrouping three key ranges
/// around two pivots either way yields the same map.
proof fn lemma_map_rotate(
    x: Map<u64, u64>,
    p: u64,
    pv: u64,
    y: Map<u64, u64>,
    q: u64,
    qv: u64,
    z: Map<u64, u64>,
)
    requires
        p < q,
        forall|e: u64| #[trigger] x.dom().contains(e) ==> e < p,
        forall|e: u64| #[trigger] y.dom().contains(e) ==> p < e && e < q,
        forall|e: u64| #[trigger] z.dom().contains(e) ==> e > q,
    ensures
        combined_map(x, p, pv, combined_map(y, q, qv, z)) == combined_map(
            combined_map(x, p, pv, y),
            q,
            qv,
            z,
        ),
{
    assert(combined_map(x, p, pv, combined_map(y, q, qv, z)) =~= combined_map(
        combined_map(x, p, pv, y),
        q,
        qv,
        z,
    ));
}

/// A node map merged with a further map on its right keeps its shape, as
/// long as the pivot key is not in that map.
proof fn lemma_union_absorb_left(
    lm: Map<u64, u64>,
    k: u64,
    v: u64,
    rm: Map<u64, u64>,
    m2: Map<u64, u64>,
)
    requires
        !m2.dom().contains(k),
    ensures
        combined_map(lm, k, v, rm).union_prefer_right(m2) == combined_map(
            lm,
            k,
            v,
            rm.union_prefer_right(m2),
        ),
{
    assert(combined_map(lm, k, v, rm).union_prefer_right(m2) =~= combined_map(
        lm,
        k,
        v,
        rm.union_prefer_right(m2),
    ));
}

/// Mirror image of `lemma_union_absorb_left`, for a map merged in from the
/// left.
proof fn lemma_union_absorb_right(
    m1: Map<u64, u64>,
    lm: Map<u64, u64>,
    k: u64,
    v: u64,
    rm: Map<u64, u64>,
)
    requires
        !m1.dom().contains(k),
    ensures
        m1.union_prefer_right(combined_map(lm, k, v, rm)) == combined_map(
            m1.union_prefer_right(lm),
            k,
            v,
            rm,
        ),
{
    assert(m1.union_prefer_right(combined_map(lm, k, v, rm)) =~= combined_map(
        m1.union_prefer_right(lm),
        k,
        v,
        rm,
    ));
}

/// Repaints the root black; the children are untouched.
fn paint_black(t: Tree) -> (out: Tree)
    ensures
        out.as_map() == t.as_map(),
        out.in_order() == t.in_order(),
        out.size() == t.size(),
        out.color() == Color::Black,
        t.bst_ordered() ==> out.bst_ordered(),
        t.no_red_red_below() ==> out.no_red_red(),
        t.black_balanced() ==> out.black_balanced(),
        out.black_height() == t.black_height() + (if t.color() == Color::Red {
            1nat
        } else {
            0nat
        }),
{
    match t {
        Tree::Leaf => Tree::Leaf,
        Tree::Node { key, value, left, right, .. } => Tree::Node {
            color: Color::Black,
            key,
            value,
            left,
            right,
        },
    }
}

/// Rebuilds a node whose left child may carry a red-red violation left
/// behind by an insertion one level down; the result is a valid red-black
/// subtree one black level taller than either input.
fn bali_l(l: Tree, k: u64, v: u64, r: Tree) -> (out: Tree)
    requires
        l.bst_ordered(),
        r.bst_ordered(),
        forall|e: u64| #[trigger] l.as_map().dom().contains(e) ==> e < k,
        forall|e: u64| #[trigger] r.as_map().dom().contains(e) ==> e > k,
        l.no_red_red_below(),
        r.no_red_red(),
        l.black_balanced(),
        r.black_balanced(),
        l.black_height() == r.black_height(),
    ensures
        out.bst_ordered(),
        out.no_red_red(),
        out.black_balanced(),
        out.black_height() == l.black_height() + 1,
        out.as_map() == combined_map(l.as_map(), k, v, r.as_map()),
{
    let ghost l0 = l;
    match l {
        Tree::Node { color: Color::Red, key: lk, value: lv, left: ll, right: lr } => {
            let ll = *ll;
            proof {
                assert(l0.as_map() == combined_map(ll.as_map(), lk, lv, lr.as_map()));
            }
            match ll {
                Tree::Node { color: Color::Red, key: k2, value: v2, left: a, right: b } => {
                    let ghost ll0 = ll;
                    let ghost lr0 = *lr;
                    let ghost r0 = r;
                    let nl = Tree::Node {
                        color: Color::Black,
                        key: k2,
                        value: v2,
                        left: a,
                        right: b,
                    };
                    let nr = Tree::Node {
                        color: Color::Black,
                        key: k,
                        value: v,
                        left: lr,
                        right: Box::new(r),
                    };
                    let out = Tree::Node {
                        color: Color::Red,
                        key: lk,
                        value: lv,
                        left: Box::new(nl),
                        right: Box::new(nr),
                    };
                    proof {
                        assert(ll0.bst_ordered() && ll0.no_red_red() && ll0.black_balanced());
                        assert(lr0.bst_ordered() && lr0.no_red_red() && lr0.black_balanced());
                        assert(l0.as_map().dom().contains(lk));
                        assert(lk < k);
                        assert(nl.as_map() == ll0.as_map());
                        assert(nr.as_map() == combined_map(lr0.as_map(), k, v, r0.as_map()));
                        assert(forall|e: u64| #[trigger]
                            ll0.as_map().dom().contains(e) ==> e < lk);
                        assert forall|e: u64| #[trigger]
                            lr0.as_map().dom().contains(e) implies lk < e && e < k by {
                            assert(l0.as_map().dom().contains(e));
                        }
                        lemma_map_rotate(
                            ll0.as_map(),
                            lk,
                            lv,
                            lr0.as_map(),
                            k,
                            v,
                            r0.as_map(),
                        );
                        assert(out.as_map() == combined_map(l0.as_map(), k, v, r0.as_map()));
                        assert(nl.bst_ordered() && nr.bst_ordered());
                        assert forall|e: u64| #[trigger]
                            nr.as_map().dom().contains(e) implies e > lk by {
                            assert(nr.as_map() == combined_map(lr0.as_map(), k, v,
                                r0.as_map()));
                        }
                        assert(out.bst_ordered());
                        assert(nl.no_red_red() && nr.no_red_red());
                        assert(nl.black_balanced() && nr.black_balanced());
                        assert(l0.black_height() == ll0.black_height());
                        assert(ll0.black_height() == lr0.black_height());
                        assert(nl.black_height() == nr.black_height());
                        assert(out.no_red_red());
                        assert(out.black_balanced());
                        assert(out.black_height() == l0.black_height() + 1);
                    }
                    out
                },
                ll2 => {
                    let lr = *lr;
                    match lr {
                        Tree::Node { color: Color::Red, key: k2, value: v2, left: b, right: c } => {
                            let ghost lr0 = lr;
                            let ghost ll20 = ll2;
                            let ghost b0 = *b;
                            let ghost c0 = *c;
                            let ghost r0 = r;
                            let nl = Tree::Node {
                                color: Color::Black,
                                key: lk,
                                value: lv,
                                left: Box::new(ll2),
                                right: b,
                            };
                            let nr = Tree::Node {
                                color: Color::Black,
                                key: k,
                                value: v,
                                left: c,
                                right: Box::new(r),
                            };
                            let out = Tree::Node {
                                color: Color::Red,
                                key: k2,
                                value: v2,
                                left: Box::new(nl),
                                right: Box::new(nr),
                            };
                            proof {
                                assert(lr0.bst_ordered() && lr0.no_red_red()
                                    && lr0.black_balanced());
                                assert(ll20.bst_ordered() && ll20.no_red_red()
                                    && ll20.black_balanced());
                                assert(lr0.as_map() == combined_map(b0.as_map(), k2, v2,
                                    c0.as_map()));
                                assert(l0.as_map().dom().contains(lk));
                                assert(lr0.as_map().dom().contains(k2));
                                assert(l0.as_map().dom().contains(k2));
                                assert(lk < k2 && k2 < k);
                                assert(forall|e: u64| #[trigger]
                                    ll20.as_map().dom().contains(e) ==> e < lk);
                                assert forall|e: u64| #[trigger]
                                    b0.as_map().dom().contains(e) implies lk < e && e < k2 by {
                                    assert(lr0.as_map().dom().contains(e));
                                }
                                assert forall|e: u64| #[trigger]
                                    c0.as_map().dom().contains(e) implies k2 < e && e < k by {
                                    assert(lr0.as_map().dom().contains(e));
                                    assert(l0.as_map().dom().contains(e));
                                }
                                lemma_map_rotate(
                                    ll20.as_map(),
                                    lk,
                                    lv,
                                    b0.as_map(),
                                    k2,
                                    v2,
                                    c0.as_map(),
                                );
                                assert(nl.as_map() == combined_map(ll20.as_map(), lk, lv,
                                    b0.as_map()));
                                assert forall|e: u64| #[trigger]
                                    nl.as_map().dom().contains(e) implies e < k2 by {}
                                lemma_map_rotate(
                                    nl.as_map(),
                                    k2,
                                    v2,
                                    c0.as_map(),
                                    k,
                                    v,
                                    r0.as_map(),
                                );
                                assert(nr.as_map() == combined_map(c0.as_map(), k, v,
                                    r0.as_map()));
                                assert(combined_map(nl.as_map(), k2, v2, c0.as_map())
                                    == l0.as_map());
                                assert(out.as_map() == combined_map(l0.as_map(), k, v,
                                    r0.as_map()));
                                assert(nl.bst_ordered() && nr.bst_ordered());
                                assert forall|e: u64| #[trigger]
                                    nr.as_map().dom().contains(e) implies e > k2 by {}
                                assert(out.bst_ordered());
                                assert(nl.no_red_red() && nr.no_red_red());
                                assert(lr0.black_height() == b0.black_height());
                                assert(l0.black_height() == ll20.black_height());
                                assert(ll20.black_height() == lr0.black_height());
                                assert(nl.black_balanced() && nr.black_balanced());
                                assert(nl.black_height() == nr.black_height());
                                assert(out.no_red_red());
                                assert(out.black_balanced());
                                assert(out.black_height() == l0.black_height() + 1);
                            }
                            out
                        },
                        lr2 => {
                            let ghost ll20 = ll2;
                            let ghost lr20 = lr2;
                            let ghost r0 = r;
                            let nl = Tree::Node {
                                color: Color::Red,
                                key: lk,
                                value: lv,
                                left: Box::new(ll2),
                                right: Box::new(lr2),
                            };
                            let out = Tree::Node {
                                color: Color::Black,
                                key: k,
                                value: v,
                                left: Box::new(nl),
                                right: Box::new(r),
                            };
                            proof {
                                assert(ll20.bst_ordered() && ll20.no_red_red()
                                    && ll20.black_balanced());
                                assert(lr20.bst_ordered() && lr20.no_red_red()
                                    && lr20.black_balanced());
                                assert(nl.as_map() == combined_map(ll20.as_map(), lk, lv,
                                    lr20.as_map()));
                                assert(nl.as_map() == l0.as_map());
                                assert(out.as_map() == combined_map(l0.as_map(), k, v,
                                    r0.as_map()));
                                assert(nl.bst_ordered());
                                assert(out.bst_ordered());
                                assert(nl.no_red_red());
                                assert(nl.black_balanced());
                                assert(nl.black_height() == l0.black_height());
                                assert(out.no_red_red());
                                assert(out.no_red_red());
                                assert(out.black_balanced());
                                assert(out.black_height() == l0.black_height() + 1);
                            }
                            out
                        },
                    }
                },
            }
        },
        other => {
            let ghost r0 = r;
            let ghost o0 = other;
            let out = Tree::Node {
                color: Color::Black,
                key: k,
                value: v,
                left: Box::new(other),
                right: Box::new(r),
            };
            proof {
                assert(out.as_map() == combined_map(l0.as_map(), k, v, r0.as_map()));
                assert(out.bst_ordered());
                assert(o0.color() != Color::Red);
                assert(o0.no_red_red());
                assert(out.no_red_red());
                assert(out.black_balanced());
                assert(out.black_height() == l0.black_height() + 1);
            }
            out
        },
    }
}

/// Mirror image of `bali_l`: the right child may carry the violation.
fn bali_r(l: Tree, k: u64, v: u64, r: Tree) -> (out: Tree)
    requires
        l.bst_ordered(),
        r.bst_ordered(),
        forall|e: u64| #[trigger] l.as_map().dom().contains(e) ==> e < k,
        forall|e: u64| #[trigger] r.as_map().dom().contains(e) ==> e > k,
        l.no_red_red(),
        r.no_red_red_below(),
        l.black_balanced(),
        r.black_balanced(),
        l.black_height() == r.black_height(),
    ensures
        out.bst_ordered(),
        out.no_red_red(),
        out.black_balanced(),
        out.black_height() == l.black_height() + 1,
        out.as_map() == combined_map(l.as_map(), k, v, r.as_map()),
{
    let ghost r0 = r;
    match r {
        Tree::Node { color: Color::Red, key: rk, value: rv, left: rl, right: rr } => {
            let rr = *rr;
            proof {
                assert(r0.as_map() == combined_map(rl.as_map(), rk, rv, rr.as_map()));
            }
            match rr {
                Tree::Node { color: Color::Red, key: k2, value: v2, left: b, right: c } => {
                    let ghost rr0 = rr;
                    let ghost rl0 = *rl;
                    let ghost l0 = l;
                    let nl = Tree::Node {
                        color: Color::Black,
                        key: k,
                        value: v,
                        left: Box::new(l),
                        right: rl,
                    };
                    let nr = Tree::Node {
                        color: Color::Black,
                        key: k2,
                        value: v2,
                        left: b,
                        right: c,
                    };
                    let out = Tree::Node {
                        color: Color::Red,
                        key: rk,
                        value: rv,
                        left: Box::new(nl),
                        right: Box::new(nr),
                    };
                    proof {
                        assert(rr0.bst_ordered() && rr0.no_red_red() && rr0.black_balanced());
                        assert(rl0.bst_ordered() && rl0.no_red_red() && rl0.black_balanced());
                        assert(r0.as_map().dom().contains(rk));
                        assert(k < rk);
                        assert(nl.as_map() == combined_map(l0.as_map(), k, v, rl0.as_map()));
                        assert(nr.as_map() == rr0.as_map());
                        assert forall|e: u64| #[trigger]
                            rl0.as_map().dom().contains(e) implies k < e && e < rk by {
                            assert(r0.as_map().dom().contains(e));
                        }
                        assert forall|e: u64| #[trigger]
                            rr0.as_map().dom().contains(e) implies e > rk by {
                            assert(r0.as_map().dom().contains(e));
                        }
                        lemma_map_rotate(
                            l0.as_map(),
                            k,
                            v,
                            rl0.as_map(),
                            rk,
                            rv,
                            rr0.as_map(),
                        );
                        assert(out.as_map() == combined_map(l0.as_map(), k, v, r0.as_map()));
                        assert(nl.bst_ordered() && nr.bst_ordered());
                        assert forall|e: u64| #[trigger]
                            nl.as_map().dom().contains(e) implies e < rk by {
                            assert(nl.as_map() == combined_map(l0.as_map(), k, v,
                                rl0.as_map()));
                        }
                        assert(out.bst_ordered());
                        assert(nl.no_red_red() && nr.no_red_red());
                        assert(nl.black_balanced() && nr.black_balanced());
                        assert(r0.black_height() == rl0.black_height());
                        assert(rl0.black_height() == rr0.black_height());
                        assert(nl.black_height() == nr.black_height());
                        assert(out.no_red_red());
                        assert(out.black_balanced());
                        assert(out.black_height() == l0.black_height() + 1);
                    }
                    out
                },
                rr2 => {
                    let rl = *rl;
                    match rl {
                        Tree::Node { color: Color::Red, key: k2, value: v2, left: b, right: c } => {
                            let ghost rl0 = rl;
                            let ghost rr20 = rr2;
                            let ghost b0 = *b;
                            let ghost c0 = *c;
                            let ghost l0 = l;
                            let nl = Tree::Node {
                                color: Color::Black,
                                key: k,
                                value: v,
                                left: Box::new(l),
                                right: b,
                            };
                            let nr = Tree::Node {
                                color: Color::Black,
                                key: rk,
                                value: rv,
                                left: c,
                                right: Box::new(rr2),
                            };
                            let out = Tree::Node {
                                color: Color::Red,
                                key: k2,
                                value: v2,
                                left: Box::new(nl),
                                right: Box::new(nr),
                            };
                            proof {
                                assert(rl0.bst_ordered() && rl0.no_red_red()
                                    && rl0.black_balanced());
                                assert(rr20.bst_ordered() && rr20.no_red_red()
                                    && rr20.black_balanced());
                                assert(rl0.as_map() == combined_map(b0.as_map(), k2, v2,
                                    c0.as_map()));
                                assert(r0.as_map().dom().contains(rk));
                                assert(rl0.as_map().dom().contains(k2));
                                assert(r0.as_map().dom().contains(k2));
                                assert(k < k2 && k2 < rk);
                                assert forall|e: u64| #[trigger]
                                    b0.as_map().dom().contains(e) implies k < e && e < k2 by {
                                    assert(rl0.as_map().dom().contains(e));
                                    assert(r0.as_map().dom().contains(e));
                                }
                                assert forall|e: u64| #[trigger]
                                    c0.as_map().dom().contains(e) implies k2 < e && e < rk by {
                                    assert(rl0.as_map().dom().contains(e));
                                }
                                assert forall|e: u64| #[trigger]
                                    rr20.as_map().dom().contains(e) implies e > rk by {
                                    assert(r0.as_map().dom().contains(e));
                                }
                                lemma_map_rotate(
                                    b0.as_map(),
                                    k2,
                                    v2,
                                    c0.as_map(),
                                    rk,
                                    rv,
                                    rr20.as_map(),
                                );
                                assert(nr.as_map() == combined_map(c0.as_map(), rk, rv,
                                    rr20.as_map()));
                                assert(r0.as_map() == combined_map(b0.as_map(), k2, v2,
                                    nr.as_map()));
                                assert forall|e: u64| #[trigger]
                                    nr.as_map().dom().contains(e) implies e > k2 by {}
                                lemma_map_rotate(
                                    l0.as_map(),
                                    k,
                                    v,
                                    b0.as_map(),
                                    k2,
                                    v2,
                                    nr.as_map(),
                                );
                                assert(nl.as_map() == combined_map(l0.as_map(), k, v,
                                    b0.as_map()));
                                assert(out.as_map() == combined_map(l0.as_map(), k, v,
                                    r0.as_map()));
                                assert(nl.bst_ordered() && nr.bst_ordered());
                                assert forall|e: u64| #[trigger]
                                    nl.as_map().dom().contains(e) implies e < k2 by {}
                                assert(out.bst_ordered());
                                assert(nl.no_red_red() && nr.no_red_red());
                                assert(rl0.black_height() == b0.black_height());
                                assert(r0.black_height() == rl0.black_height());
                                assert(rl0.black_height() == rr20.black_height());
                                assert(nl.black_balanced() && nr.black_balanced());
                                assert(nl.black_height() == nr.black_height());
                                assert(out.no_red_red());
                                assert(out.black_balanced());
                                assert(out.black_height() == l0.black_height() + 1);
                            }
                            out
                        },
                        rl2 => {
                            let ghost rl20 = rl2;
                            let ghost rr20 = rr2;
                            let ghost l0 = l;
                            let nr = Tree::Node {
                                color: Color::Red,
                                key: rk,
                                value: rv,
                                left: Box::new(rl2),
                                right: Box::new(rr2),
                            };
                            let out = Tree::Node {
                                color: Color::Black,
                                key: k,
                                value: v,
                                left: Box::new(l),
                                right: Box::new(nr),
                            };
                            proof {
                                assert(rl20.bst_ordered() && rl20.no_red_red()
                                    && rl20.black_balanced());
                                assert(rr20.bst_ordered() && rr20.no_red_red()
                                    && rr20.black_balanced());
                                assert(nr.as_map() == combined_map(rl20.as_map(), rk, rv,
                                    rr20.as_map()));
                                assert(nr.as_map() == r0.as_map());
                                assert(out.as_map() == combined_map(l0.as_map(), k, v,
                                    r0.as_map()));
                                assert(nr.bst_ordered());
                                assert(out.bst_ordered());
                                assert(nr.no_red_red());
                                assert(nr.black_balanced());
                                assert(nr.black_height() == r0.black_height());
                                assert(out.no_red_red());
                                assert(out.no_red_red());
                                assert(out.black_balanced());
                                assert(out.black_height() == l0.black_height() + 1);
                            }
                            out
                        },
                    }
                },
            }
        },
        other => {
            let ghost l0 = l;
            let ghost o0 = other;
            let out = Tree::Node {
                color: Color::Black,
                key: k,
                value: v,
                left: Box::new(l),
                right: Box::new(other),
            };
            proof {
                assert(out.as_map() == combined_map(l0.as_map(), k, v, r0.as_map()));
                assert(out.bst_ordered());
                assert(o0.color() != Color::Red);
                assert(o0.no_red_red());
                assert(out.no_red_red());
                assert(out.black_balanced());
                assert(out.black_height() == l0.black_height() + 1);
            }
            out
        },
    }
}

/// Binary-search placement: descends to the key's position, overwrites the
/// value on an exact match, and otherwise links a fresh red node where the
/// search fell off the tree, rebalancing on the way back up. The returned
/// flag reports whether a new key was added.
fn ins(t: Tree, key: u64, value: u64) -> (res: (Tree, bool))
    requires
        t.bst_ordered(),
        t.no_red_red(),
        t.black_balanced(),
    ensures
        res.0.bst_ordered(),
        res.0.black_balanced(),
        res.0.black_height() == t.black_height(),
        res.0.no_red_red_below(),
        t.color() == Color::Black ==> res.0.no_red_red(),
        res.0.as_map() == t.as_map().insert(key, value),
        res.1 == !t.as_map().dom().contains(key),
    decreases t,
{
    let ghost t0 = t;
    match t {
        Tree::Leaf => {
            let out = Tree::Node {
                color: Color::Red,
                key,
                value,
                left: Box::new(Tree::Leaf),
                right: Box::new(Tree::Leaf),
            };
            proof {
                assert(Tree::Leaf.as_map() == Map::<u64, u64>::empty());
                assert(Map::<u64, u64>::empty().union_prefer_right(Map::<u64, u64>::empty())
                    =~= Map::<u64, u64>::empty());
                assert(out.as_map() =~= Map::<u64, u64>::empty().insert(key, value));
                assert(out.as_map().dom() =~= Set::<u64>::empty().insert(key));
            }
            (out, true)
        },
        Tree::Node { color, key: a, value: av, left: l, right: r } => {
            let l = *l;
            let r = *r;
            if key < a {
                proof {
                    assert(!r.as_map().dom().contains(key));
                }
                let (l2, added) = ins(l, key, value);
                match color {
                    Color::Black => {
                        let out = bali_l(l2, a, av, r);
                        proof {
                            assert(out.as_map() =~= t0.as_map().insert(key, value));
                        }
                        (out, added)
                    },
                    Color::Red => {
                        let out = Tree::Node {
                            color: Color::Red,
                            key: a,
                            value: av,
                            left: Box::new(l2),
                            right: Box::new(r),
                        };
                        proof {
                            assert(out.as_map() =~= t0.as_map().insert(key, value));
                        }
                        (out, added)
                    },
                }
            } else if key > a {
                proof {
                    assert(!l.as_map().dom().contains(key));
                }
                let (r2, added) = ins(r, key, value);
                match color {
                    Color::Black => {
                        let out = bali_r(l, a, av, r2);
                        proof {
                            assert(out.as_map() =~= t0.as_map().insert(key, value));
                        }
                        (out, added)
                    },
                    Color::Red => {
                        let out = Tree::Node {
                            color: Color::Red,
                            key: a,
                            value: av,
                            left: Box::new(l),
                            right: Box::new(r2),
                        };
                        proof {
                            assert(out.as_map() =~= t0.as_map().insert(key, value));
                        }
                        (out, added)
                    },
                }
            } else {
                let out = Tree::Node {
                    color,
                    key: a,
                    value,
                    left: Box::new(l),
                    right: Box::new(r),
                };
                proof {
                    assert(!l.as_map().dom().contains(key));
                    assert(!r.as_map().dom().contains(key));
                    assert(out.as_map() =~= t0.as_map().insert(key, value));
                }
                (out, false)
            }
        },
    }
}

/// Whether the subtree is a black-rooted node (not an empty leaf).
fn is_black_node(t: &Tree) -> (b: bool)
    ensures
        b == (!(*t is Leaf) && t.color() == Color::Black),
{
    match t {
        Tree::Node { color: Color::Black, .. } => true,
        _ => false,
    }
}

/// Rebuilds a node whose left subtree is one black level short, as happens
/// after a deletion below it; the deficit is either absorbed or pushed up.
fn bald_l(l: Tree, k: u64, v: u64, r: Tree) -> (out: Tree)
    requires
        l.bst_ordered(),
        r.bst_ordered(),
        forall|e: u64| #[trigger] l.as_map().dom().contains(e) ==> e < k,
        forall|e: u64| #[trigger] r.as_map().dom().contains(e) ==> e > k,
        l.no_red_red_below(),
        r.no_red_red(),
        l.black_balanced(),
        r.black_balanced(),
        l.black_height() + 1 == r.black_height(),
    ensures
        out.bst_ordered(),
        out.as_map() == combined_map(l.as_map(), k, v, r.as_map()),
        out.black_balanced(),
        out.black_height() == r.black_height(),
        out.no_red_red_below(),
        r.color() == Color::Black ==> out.no_red_red(),
{
    let ghost l0 = l;
    let ghost r0 = r;
    match l {
        Tree::Node { color: Color::Red, key: lk, value: lv, left: ll, right: lr } => {
            let nl = Tree::Node { color: Color::Black, key: lk, value: lv, left: ll, right: lr };
            let out = Tree::Node {
                color: Color::Red,
                key: k,
                value: v,
                left: Box::new(nl),
                right: Box::new(r),
            };
            proof {
                assert(nl.as_map() == l0.as_map());
                assert(out.as_map() == combined_map(l0.as_map(), k, v, r0.as_map()));
                assert(nl.bst_ordered());
                assert(out.bst_ordered());
                assert(nl.no_red_red());
                assert(nl.black_balanced());
                assert(nl.black_height() == l0.black_height() + 1);
                assert(out.black_balanced());
                assert(out.no_red_red_below());
            }
            out
        },
        l2 => {
            let ghost l20 = l2;
            match r {
                Tree::Node { color: Color::Black, key: rk, value: rv, left: rl, right: rr } => {
                    let nr = Tree::Node {
                        color: Color::Red,
                        key: rk,
                        value: rv,
                        left: rl,
                        right: rr,
                    };
                    proof {
                        assert(nr.as_map() == r0.as_map());
                        assert(l20.color() != Color::Red);
                        assert(l20.no_red_red());
                        assert(nr.bst_ordered());
                        assert(nr.no_red_red_below());
                        assert(nr.black_balanced());
                        assert(nr.black_height() + 1 == r0.black_height());
                    }
                    let out = bali_r(l2, k, v, nr);
                    proof {
                        assert(out.as_map() == combined_map(l0.as_map(), k, v, r0.as_map()));
                        assert(out.no_red_red_below());
                    }
                    out
                },
                Tree::Node { color: Color::Red, key: rk, value: rv, left: rl, right: rr } => {
                    let rl = *rl;
                    match rl {
                        Tree::Node {
                            color: Color::Black,
                            key: rlk,
                            value: rlv,
                            left: rll,
                            right: rlr,
                        } => {
                            let ghost rl0 = rl;
                            let ghost rr0 = *rr;
                            let ghost rll0 = *rll;
                            let ghost rlr0 = *rlr;
                            let rr = *rr;
                            let painted = match rr {
                                Tree::Node {
                                    color: _,
                                    key: rrk,
                                    value: rrv,
                                    left: rrl,
                                    right: rrr,
                                } => Tree::Node {
                                    color: Color::Red,
                                    key: rrk,
                                    value: rrv,
                                    left: rrl,
                                    right: rrr,
                                },
                                Tree::Leaf => {
                                    proof {
                                        assert(rr0.black_height() == rl0.black_height());
                                        assert(rl0.black_height() >= 1);
                                        assert(false);
                                    }
                                    Tree::Leaf
                                },
                            };
                            proof {
                                assert(rl0.bst_ordered() && rl0.no_red_red()
                                    && rl0.black_balanced());
                                assert(rr0.bst_ordered() && rr0.no_red_red()
                                    && rr0.black_balanced());
                                assert(rr0.color() == Color::Black);
                                assert(painted.as_map() == rr0.as_map());
                                assert(painted.bst_ordered());
                                assert(painted.no_red_red_below());
                                assert(painted.black_balanced());
                                assert(painted.black_height() + 1 == rr0.black_height());
                                assert(r0.as_map().dom().contains(rk));
                                assert(rl0.as_map().dom().contains(rlk));
                                assert(r0.as_map().dom().contains(rlk));
                                assert(k < rlk && rlk < rk);
                                assert(rl0.as_map() == combined_map(rll0.as_map(), rlk, rlv,
                                    rlr0.as_map()));
                                assert forall|e: u64| #[trigger]
                                    rlr0.as_map().dom().contains(e) implies rlk < e && e < rk by {
                                    assert(rl0.as_map().dom().contains(e));
                                }
                                assert forall|e: u64| #[trigger]
                                    rll0.as_map().dom().contains(e) implies k < e && e < rlk by {
                                    assert(rl0.as_map().dom().contains(e));
                                    assert(r0.as_map().dom().contains(e));
                                }
                                assert forall|e: u64| #[trigger]
                                    rr0.as_map().dom().contains(e) implies e > rk by {
                                    assert(r0.as_map().dom().contains(e));
                                }
                                assert(rlr0.black_height() == painted.black_height());
                            }
                            let sub = bali_r(*rlr, rk, rv, painted);
                            let nl = Tree::Node {
                                color: Color::Black,
                                key: k,
                                value: v,
                                left: Box::new(l2),
                                right: rll,
                            };
                            let out = Tree::Node {
                                color: Color::Red,
                                key: rlk,
                                value: rlv,
                                left: Box::new(nl),
                                right: Box::new(sub),
                            };
                            proof {
                                assert(sub.as_map() == combined_map(rlr0.as_map(), rk, rv,
                                    rr0.as_map()));
                                assert(nl.as_map() == combined_map(l20.as_map(), k, v,
                                    rll0.as_map()));
                                lemma_map_rotate(
                                    rll0.as_map(),
                                    rlk,
                                    rlv,
                                    rlr0.as_map(),
                                    rk,
                                    rv,
                                    rr0.as_map(),
                                );
                                assert(r0.as_map() == combined_map(rl0.as_map(), rk, rv,
                                    rr0.as_map()));
                                assert(r0.as_map() == combined_map(rll0.as_map(), rlk, rlv,
                                    sub.as_map()));
                                assert forall|e: u64| #[trigger]
                                    sub.as_map().dom().contains(e) implies e > rlk by {}
                                lemma_map_rotate(
                                    l20.as_map(),
                                    k,
                                    v,
                                    rll0.as_map(),
                                    rlk,
                                    rlv,
                                    sub.as_map(),
                                );
                                assert(out.as_map() == combined_map(l0.as_map(), k, v,
                                    r0.as_map()));
                                assert(l20.color() != Color::Red && l20.no_red_red());
                                assert(nl.bst_ordered());
                                assert(nl.no_red_red());
                                assert(nl.black_balanced());
                                assert(nl.black_height() == l0.black_height() + 1);
                                assert(out.bst_ordered());
                                assert(sub.black_height() == rlr0.black_height() + 1);
                                assert(rl0.black_height() == rr0.black_height());
                                assert(out.no_red_red_below());
                                assert(out.black_balanced());
                                assert(out.black_height() == r0.black_height());
                            }
                            out
                        },
                        rl2 => {
                            proof {
                                assert(rl2.color() == Color::Black);
                                assert(rl2.black_height() == rr.black_height());
                                assert(l20.black_height() + 1 == rl2.black_height());
                                assert(rl2 is Leaf ==> rl2.black_height() == 0);
                                assert(false);
                            }
                            rl2
                        },
                    }
                },
                Tree::Leaf => {
                    proof {
                        assert(r0.black_height() == 0);
                        assert(false);
                    }
                    l2
                },
            }
        },
    }
}

/// Mirror image of `bald_l`: the right subtree is one black level short.
fn bald_r(l: Tree, k: u64, v: u64, r: Tree) -> (out: Tree)
    requires
        l.bst_ordered(),
        r.bst_ordered(),
        forall|e: u64| #[trigger] l.as_map().dom().contains(e) ==> e < k,
        forall|e: u64| #[trigger] r.as_map().dom().contains(e) ==> e > k,
        l.no_red_red(),
        r.no_red_red_below(),
        l.black_balanced(),
        r.black_balanced(),
        l.black_height() == r.black_height() + 1,
    ensures
        out.bst_ordered(),
        out.as_map() == combined_map(l.as_map(), k, v, r.as_map()),
        out.black_balanced(),
        out.black_height() == l.black_height(),
        out.no_red_red_below(),
        l.color() == Color::Black ==> out.no_red_red(),
{
    let ghost l0 = l;
    let ghost r0 = r;
    match r {
        Tree::Node { color: Color::Red, key: rk, value: rv, left: rl, right: rr } => {
            let nr = Tree::Node { color: Color::Black, key: rk, value: rv, left: rl, right: rr };
            let out = Tree::Node {
                color: Color::Red,
                key: k,
                value: v,
                left: Box::new(l),
                right: Box::new(nr),
            };
            proof {
                assert(nr.as_map() == r0.as_map());
                assert(out.as_map() == combined_map(l0.as_map(), k, v, r0.as_map()));
                assert(nr.bst_ordered());
                assert(out.bst_ordered());
                assert(nr.no_red_red());
                assert(nr.black_balanced());
                assert(nr.black_height() == r0.black_height() + 1);
                assert(out.black_balanced());
                assert(out.no_red_red_below());
            }
            out
        },
        r2 => {
            let ghost r20 = r2;
            match l {
                Tree::Node { color: Color::Black, key: lk, value: lv, left: ll, right: lr } => {
                    let nl = Tree::Node {
                        color: Color::Red,
                        key: lk,
                        value: lv,
                        left: ll,
                        right: lr,
                    };
                    proof {
                        assert(nl.as_map() == l0.as_map());
                        assert(r20.color() != Color::Red);
                        assert(r20.no_red_red());
                        assert(nl.bst_ordered());
                        assert(nl.no_red_red_below());
                        assert(nl.black_balanced());
                        assert(nl.black_height() + 1 == l0.black_height());
                    }
                    let out = bali_l(nl, k, v, r2);
                    proof {
                        assert(out.as_map() == combined_map(l0.as_map(), k, v, r0.as_map()));
                        assert(out.no_red_red_below());
                    }
                    out
                },
                Tree::Node { color: Color::Red, key: lk, value: lv, left: ll, right: lr } => {
                    let lr = *lr;
                    match lr {
                        Tree::Node {
                            color: Color::Black,
                            key: lrk,
                            value: lrv,
                            left: lrl,
                            right: lrr,
                        } => {
                            let ghost lr0 = lr;
                            let ghost ll0 = *ll;
                            let ghost lrl0 = *lrl;
                            let ghost lrr0 = *lrr;
                            let ll = *ll;
                            let painted = match ll {
                                Tree::Node {
                                    color: _,
                                    key: llk,
                                    value: llv,
                                    left: lll,
                                    right: llr,
                                } => Tree::Node {
                                    color: Color::Red,
                                    key: llk,
                                    value: llv,
                                    left: lll,
                                    right: llr,
                                },
                                Tree::Leaf => {
                                    proof {
                                        assert(ll0.black_height() == lr0.black_height());
                                        assert(lr0.black_height() >= 1);
                                        assert(false);
                                    }
                                    Tree::Leaf
                                },
                            };
                            proof {
                                assert(lr0.bst_ordered() && lr0.no_red_red()
                                    && lr0.black_balanced());
                                assert(ll0.bst_ordered() && ll0.no_red_red()
                                    && ll0.black_balanced());
                                assert(ll0.color() == Color::Black);
                                assert(painted.as_map() == ll0.as_map());
                                assert(painted.bst_ordered());
                                assert(painted.no_red_red_below());
                                assert(painted.black_balanced());
                                assert(painted.black_height() + 1 == ll0.black_height());
                                assert(l0.as_map().dom().contains(lk));
                                assert(lr0.as_map().dom().contains(lrk));
                                assert(l0.as_map().dom().contains(lrk));
                                assert(lk < lrk && lrk < k);
                                assert(lr0.as_map() == combined_map(lrl0.as_map(), lrk, lrv,
                                    lrr0.as_map()));
                                assert forall|e: u64| #[trigger]
                                    ll0.as_map().dom().contains(e) implies e < lk by {
                                    assert(l0.as_map().dom().contains(e));
                                }
                                assert forall|e: u64| #[trigger]
                                    lrl0.as_map().dom().contains(e) implies lk < e && e < lrk by {
                                    assert(lr0.as_map().dom().contains(e));
                                }
                                assert forall|e: u64| #[trigger]
                                    lrr0.as_map().dom().contains(e) implies lrk < e && e < k by {
                                    assert(lr0.as_map().dom().contains(e));
                                    assert(l0.as_map().dom().contains(e));
                                }
                                assert(painted.black_height() == lrl0.black_height());
                            }
                            let sub = bali_l(painted, lk, lv, *lrl);
                            let nr = Tree::Node {
                                color: Color::Black,
                                key: k,
                                value: v,
                                left: lrr,
                                right: Box::new(r2),
                            };
                            let out = Tree::Node {
                                color: Color::Red,
                                key: lrk,
                                value: lrv,
                                left: Box::new(sub),
                                right: Box::new(nr),
                            };
                            proof {
                                assert(sub.as_map() == combined_map(ll0.as_map(), lk, lv,
                                    lrl0.as_map()));
                                assert(nr.as_map() == combined_map(lrr0.as_map(), k, v,
                                    r20.as_map()));
                                lemma_map_rotate(
                                    ll0.as_map(),
                                    lk,
                                    lv,
                                    lrl0.as_map(),
                                    lrk,
                                    lrv,
                                    lrr0.as_map(),
                                );
                                assert(l0.as_map() == combined_map(ll0.as_map(), lk, lv,
                                    lr0.as_map()));
                                assert(l0.as_map() == combined_map(sub.as_map(), lrk, lrv,
                                    lrr0.as_map()));
                                assert forall|e: u64| #[trigger]
                                    sub.as_map().dom().contains(e) implies e < lrk by {}
                                lemma_map_rotate(
                                    sub.as_map(),
                                    lrk,
                                    lrv,
                                    lrr0.as_map(),
                                    k,
                                    v,
                                    r20.as_map(),
                                );
                                assert(out.as_map() == combined_map(l0.as_map(), k, v,
                                    r0.as_map()));
                                assert(r20.color() != Color::Red && r20.no_red_red());
                                assert(nr.bst_ordered());
                                assert(nr.no_red_red());
                                assert(nr.black_balanced());
                                assert(nr.black_height() == lrr0.black_height() + 1);
                                assert(out.bst_ordered());
                                assert(sub.black_height() == lrl0.black_height() + 1);
                                assert(ll0.black_height() == lr0.black_height());
                                assert(out.no_red_red_below());
                                assert(out.black_balanced());
                                assert(out.black_height() == l0.black_height());
                            }
                            out
                        },
                        lr2 => {
                            proof {
                                assert(lr2.color() == Color::Black);
                                assert(lr2.black_height() == ll.black_height());
                                assert(r20.black_height() + 1 == lr2.black_height());
                                assert(lr2 is Leaf ==> lr2.black_height() == 0);
                                assert(false);
                            }
                            lr2
                        },
                    }
                },
                Tree::Leaf => {
                    proof {
                        assert(l0.black_height() == 0);
                        assert(false);
                    }
                    r2
                },
            }
        },
    }
}

/// Joins two subtrees of equal black height whose key ranges are fully
/// separated, as happens when the node between them is deleted.
#[verifier::rlimit(100)]
fn join(l: Tree, r: Tree) -> (out: Tree)
    requires
        l.bst_ordered(),
        r.bst_ordered(),
        l.no_red_red(),
        r.no_red_red(),
        l.black_balanced(),
        r.black_balanced(),
        l.black_height() == r.black_height(),
        forall|e1: u64, e2: u64|
            #![trigger l.as_map().dom().contains(e1), r.as_map().dom().contains(e2)]
            l.as_map().dom().contains(e1) && r.as_map().dom().contains(e2) ==> e1 < e2,
    ensures
        out.bst_ordered(),
        out.as_map() == l.as_map().union_prefer_right(r.as_map()),
        out.black_balanced(),
        out.black_height() == l.black_height(),
        out.no_red_red_below(),
        l.color() == Color::Black && r.color() == Color::Black ==> out.no_red_red(),
    decreases l.size() + r.size(),
{
    let ghost l0 = l;
    let ghost r0 = r;
    match (l, r) {
        (Tree::Leaf, rt) => {
            proof {
                assert(l0.as_map() =~= Map::<u64, u64>::empty());
                assert(l0.as_map().union_prefer_right(r0.as_map()) =~= r0.as_map());
            }
            rt
        },
        (lt, Tree::Leaf) => {
            proof {
                assert(r0.as_map() =~= Map::<u64, u64>::empty());
                assert(l0.as_map().union_prefer_right(r0.as_map()) =~= l0.as_map());
            }
            lt
        },
        (
            Tree::Node { color: Color::Red, key: lk, value: lv, left: l1, right: r1 },
            Tree::Node { color: Color::Red, key: rk, value: rv, left: l2, right: r2 },
        ) => {
            let ghost l10 = *l1;
            let ghost r10 = *r1;
            let ghost l20 = *l2;
            let ghost r20 = *r2;
            proof {
                assert(l0.as_map() == combined_map(l10.as_map(), lk, lv, r10.as_map()));
                assert(r0.as_map() == combined_map(l20.as_map(), rk, rv, r20.as_map()));
                assert(r10.bst_ordered() && r10.no_red_red() && r10.black_balanced());
                assert(l20.bst_ordered() && l20.no_red_red() && l20.black_balanced());
                assert(r10.black_height() == l20.black_height());
                assert forall|e1: u64, e2: u64|
                    #![trigger r10.as_map().dom().contains(e1), l20.as_map().dom().contains(e2)]
                    r10.as_map().dom().contains(e1) && l20.as_map().dom().contains(e2)
                    implies e1 < e2 by {
                    assert(l0.as_map().dom().contains(e1));
                    assert(r0.as_map().dom().contains(e2));
                }
            }
            let mid = join(*r1, *l2);
            let ghost mid0 = mid;
            proof {
                assert forall|e: u64| #[trigger]
                    mid0.as_map().dom().contains(e) implies lk < e && e < rk by {
                    if r10.as_map().dom().contains(e) {
                        assert(l0.as_map().dom().contains(e));
                        assert(r0.as_map().dom().contains(rk));
                    } else {
                        assert(l0.as_map().dom().contains(lk));
                        assert(r0.as_map().dom().contains(e));
                    }
                }
                assert(l0.as_map().dom().contains(lk));
                assert(r0.as_map().dom().contains(rk));
                assert(lk < rk);
            }
            match mid {
                Tree::Node { color: Color::Red, key: mk, value: mv, left: ml, right: mr } => {
                    let ghost ml0 = *ml;
                    let ghost mr0 = *mr;
                    let c1 = Tree::Node { color: Color::Red, key: lk, value: lv, left: l1, right: ml };
                    let c2 = Tree::Node { color: Color::Red, key: rk, value: rv, left: mr, right: r2 };
                    let out = Tree::Node {
                        color: Color::Red,
                        key: mk,
                        value: mv,
                        left: Box::new(c1),
                        right: Box::new(c2),
                    };
                    proof {
                        assert(mid0.as_map() == combined_map(ml0.as_map(), mk, mv, mr0.as_map()));
                        assert(c1.as_map() == combined_map(l10.as_map(), lk, lv, ml0.as_map()));
                        assert(c2.as_map() == combined_map(mr0.as_map(), rk, rv, r20.as_map()));
                        assert(mid0.bst_ordered());
                        assert(mid0.as_map().dom().contains(mk));
                        assert(lk < mk && mk < rk);
                        assert forall|e: u64| #[trigger]
                            ml0.as_map().dom().contains(e) implies lk < e && e < mk by {
                            assert(mid0.as_map().dom().contains(e));
                        }
                        assert forall|e: u64| #[trigger]
                            mr0.as_map().dom().contains(e) implies mk < e && e < rk by {
                            assert(mid0.as_map().dom().contains(e));
                        }
                        assert forall|e: u64| #[trigger]
                            l10.as_map().dom().contains(e) implies e < lk by {}
                        assert forall|e: u64| #[trigger]
                            r20.as_map().dom().contains(e) implies e > rk by {}
                        assert(c1.bst_ordered() && c2.bst_ordered());
                        assert(out.bst_ordered());
                        assert(!r0.as_map().dom().contains(lk));
                        lemma_union_absorb_left(
                            l10.as_map(),
                            lk,
                            lv,
                            r10.as_map(),
                            r0.as_map(),
                        );
                        assert(!r10.as_map().dom().contains(rk)) by {
                            if r10.as_map().dom().contains(rk) {
                                assert(l0.as_map().dom().contains(rk));
                            }
                        }
                        lemma_union_absorb_right(
                            r10.as_map(),
                            l20.as_map(),
                            rk,
                            rv,
                            r20.as_map(),
                        );
                        assert(r10.as_map().union_prefer_right(r0.as_map()) == combined_map(
                            mid0.as_map(),
                            rk,
                            rv,
                            r20.as_map(),
                        ));
                        lemma_map_rotate(
                            ml0.as_map(),
                            mk,
                            mv,
                            mr0.as_map(),
                            rk,
                            rv,
                            r20.as_map(),
                        );
                        assert forall|e: u64| #[trigger]
                            c2.as_map().dom().contains(e) implies e > mk by {}
                        lemma_map_rotate(
                            l10.as_map(),
                            lk,
                            lv,
                            ml0.as_map(),
                            mk,
                            mv,
                            c2.as_map(),
                        );
                        assert(out.as_map() == l0.as_map().union_prefer_right(r0.as_map()));
                        assert(mid0.no_red_red_below());
                        assert(c1.no_red_red() && c2.no_red_red());
                        assert(out.no_red_red_below());
                        assert(mid0.black_balanced());
                        assert(c1.black_balanced() && c2.black_balanced());
                        assert(c1.black_height() == c2.black_height());
                        assert(out.black_balanced());
                        assert(out.black_height() == l0.black_height());
                    }
                    out
                },
                mid2 => {
                    let ghost m20 = mid2;
                    let c2 = Tree::Node {
                        color: Color::Red,
                        key: rk,
                        value: rv,
                        left: Box::new(mid2),
                        right: r2,
                    };
                    let out = Tree::Node {
                        color: Color::Red,
                        key: lk,
                        value: lv,
                        left: l1,
                        right: Box::new(c2),
                    };
                    proof {
                        assert(c2.as_map() == combined_map(m20.as_map(), rk, rv, r20.as_map()));
                        assert(m20.color() != Color::Red);
                        assert(m20.no_red_red());
                        assert forall|e: u64| #[trigger]
                            r20.as_map().dom().contains(e) implies e > rk by {}
                        assert forall|e: u64| #[trigger]
                            l10.as_map().dom().contains(e) implies e < lk by {}
                        assert(c2.bst_ordered());
                        assert(out.bst_ordered());
                        assert(out.as_map() =~= l0.as_map().union_prefer_right(r0.as_map()));
                        assert(c2.no_red_red());
                        assert(out.no_red_red_below());
                        assert(c2.black_balanced());
                        assert(c2.black_height() == l10.black_height());
                        assert(out.black_balanced());
                        assert(out.black_height() == l0.black_height());
                    }
                    out
                },
            }
        },
        (
            Tree::Node { color: Color::Black, key: lk, value: lv, left: l1, right: r1 },
            Tree::Node { color: Color::Black, key: rk, value: rv, left: l2, right: r2 },
        ) => {
            let ghost l10 = *l1;
            let ghost r10 = *r1;
            let ghost l20 = *l2;
            let ghost r20 = *r2;
            proof {
                assert(l0.as_map() == combined_map(l10.as_map(), lk, lv, r10.as_map()));
                assert(r0.as_map() == combined_map(l20.as_map(), rk, rv, r20.as_map()));
                assert(r10.bst_ordered() && r10.no_red_red() && r10.black_balanced());
                assert(l20.bst_ordered() && l20.no_red_red() && l20.black_balanced());
                assert(r10.black_height() == l20.black_height());
                assert forall|e1: u64, e2: u64|
                    #![trigger r10.as_map().dom().contains(e1), l20.as_map().dom().contains(e2)]
                    r10.as_map().dom().contains(e1) && l20.as_map().dom().contains(e2)
                    implies e1 < e2 by {
                    assert(l0.as_map().dom().contains(e1));
                    assert(r0.as_map().dom().contains(e2));
                }
            }
            let mid = join(*r1, *l2);
            let ghost mid0 = mid;
            proof {
                assert forall|e: u64| #[trigger]
                    mid0.as_map().dom().contains(e) implies lk < e && e < rk by {
                    if r10.as_map().dom().contains(e) {
                        assert(l0.as_map().dom().contains(e));
                        assert(r0.as_map().dom().contains(rk));
                    } else {
                        assert(l0.as_map().dom().contains(lk));
                        assert(r0.as_map().dom().contains(e));
                    }
                }
                assert(l0.as_map().dom().contains(lk));
                assert(r0.as_map().dom().contains(rk));
                assert(lk < rk);
            }
            match mid {
                Tree::Node { color: Color::Red, key: mk, value: mv, left: ml, right: mr } => {
                    let ghost ml0 = *ml;
                    let ghost mr0 = *mr;
                    let c1 = Tree::Node {
                        color: Color::Black,
                        key: lk,
                        value: lv,
                        left: l1,
                        right: ml,
                    };
                    let c2 = Tree::Node {
                        color: Color::Black,
                        key: rk,
                        value: rv,
                        left: mr,
                        right: r2,
                    };
                    let out = Tree::Node {
                        color: Color::Red,
                        key: mk,
                        value: mv,
                        left: Box::new(c1),
                        right: Box::new(c2),
                    };
                    proof {
                        assert(mid0.as_map() == combined_map(ml0.as_map(), mk, mv, mr0.as_map()));
                        assert(c1.as_map() == combined_map(l10.as_map(), lk, lv, ml0.as_map()));
                        assert(c2.as_map() == combined_map(mr0.as_map(), rk, rv, r20.as_map()));
                        assert(mid0.bst_ordered());
                        assert(mid0.as_map().dom().contains(mk));
                        assert(lk < mk && mk < rk);
                        assert forall|e: u64| #[trigger]
                            ml0.as_map().dom().contains(e) implies lk < e && e < mk by {
                            assert(mid0.as_map().dom().contains(e));
                        }
                        assert forall|e: u64| #[trigger]
                            mr0.as_map().dom().contains(e) implies mk < e && e < rk by {
                            assert(mid0.as_map().dom().contains(e));
                        }
                        assert forall|e: u64| #[trigger]
                            l10.as_map().dom().contains(e) implies e < lk by {}
                        assert forall|e: u64| #[trigger]
                            r20.as_map().dom().contains(e) implies e > rk by {}
                        assert(c1.bst_ordered() && c2.bst_ordered());
                        assert(out.bst_ordered());
                        assert(!r0.as_map().dom().contains(lk));
                        lemma_union_absorb_left(
                            l10.as_map(),
                            lk,
                            lv,
                            r10.as_map(),
                            r0.as_map(),
                        );
                        assert(!r10.as_map().dom().contains(rk)) by {
                            if r10.as_map().dom().contains(rk) {
                                assert(l0.as_map().dom().contains(rk));
                            }
                        }
                        lemma_union_absorb_right(
                            r10.as_map(),
                            l20.as_map(),
                            rk,
                            rv,
                            r20.as_map(),
                        );
                        assert(r10.as_map().union_prefer_right(r0.as_map()) == combined_map(
                            mid0.as_map(),
                            rk,
                            rv,
                            r20.as_map(),
                        ));
                        lemma_map_rotate(
                            ml0.as_map(),
                            mk,
                            mv,
                            mr0.as_map(),
                            rk,
                            rv,
                            r20.as_map(),
                        );
                        assert forall|e: u64| #[trigger]
                            c2.as_map().dom().contains(e) implies e > mk by {}
                        lemma_map_rotate(
                            l10.as_map(),
                            lk,
                            lv,
                            ml0.as_map(),
                            mk,
                            mv,
                            c2.as_map(),
                        );
                        assert(out.as_map() == l0.as_map().union_prefer_right(r0.as_map()));
                        assert(mid0.no_red_red_below());
                        assert(c1.no_red_red() && c2.no_red_red());
                        assert(out.no_red_red());
                        assert(mid0.black_balanced());
                        assert(c1.black_balanced() && c2.black_balanced());
                        assert(c1.black_height() == c2.black_height());
                        assert(out.black_balanced());
                        assert(out.black_height() == l0.black_height());
                    }
                    out
                },
                mid2 => {
                    let ghost m20 = mid2;
                    let nr = Tree::Node {
                        color: Color::Black,
                        key: rk,
                        value: rv,
                        left: Box::new(mid2),
                        right: r2,
                    };
                    proof {
                        assert(nr.as_map() == combined_map(m20.as_map(), rk, rv, r20.as_map()));
                        assert(m20.color() != Color::Red);
                        assert(m20.no_red_red());
                        assert(l10.bst_ordered() && l10.no_red_red() && l10.black_balanced());
                        assert forall|e: u64| #[trigger]
                            r20.as_map().dom().contains(e) implies e > rk by {}
                        assert forall|e: u64| #[trigger]
                            l10.as_map().dom().contains(e) implies e < lk by {}
                        assert(nr.bst_ordered());
                        assert(nr.no_red_red());
                        assert(nr.black_balanced());
                        assert(nr.black_height() == m20.black_height() + 1);
                        assert forall|e: u64| #[trigger]
                            nr.as_map().dom().contains(e) implies e > lk by {
                            if m20.as_map().dom().contains(e) {
                            } else if r20.as_map().dom().contains(e) {
                                assert(l0.as_map().dom().contains(lk));
                                assert(r0.as_map().dom().contains(e));
                            } else {
                            }
                        }
                        assert(l10.no_red_red_below());
                    }
                    let out = bald_l(*l1, lk, lv, nr);
                    proof {
                        assert(out.as_map() == combined_map(l10.as_map(), lk, lv, nr.as_map()));
                        assert(out.as_map() =~= l0.as_map().union_prefer_right(r0.as_map()));
                        assert(out.no_red_red());
                        assert(out.no_red_red_below());
                        assert(out.black_height() == l0.black_height());
                    }
                    out
                },
            }
        },
        (lt, Tree::Node { color: Color::Red, key: rk, value: rv, left: l2, right: r2 }) => {
            let ghost lt0 = lt;
            let ghost l20 = *l2;
            let ghost r20 = *r2;
            proof {
                assert(r0.as_map() == combined_map(l20.as_map(), rk, rv, r20.as_map()));
                assert(lt0.color() == Color::Black);
                assert(l20.bst_ordered() && l20.no_red_red() && l20.black_balanced());
                assert(l20.color() == Color::Black);
                assert(lt0.black_height() == l20.black_height());
                assert forall|e1: u64, e2: u64|
                    #![trigger lt0.as_map().dom().contains(e1), l20.as_map().dom().contains(e2)]
                    lt0.as_map().dom().contains(e1) && l20.as_map().dom().contains(e2)
                    implies e1 < e2 by {
                    assert(r0.as_map().dom().contains(e2));
                }
            }
            let mid = join(lt, *l2);
            let ghost mid0 = mid;
            let out = Tree::Node {
                color: Color::Red,
                key: rk,
                value: rv,
                left: Box::new(mid),
                right: r2,
            };
            proof {
                assert(out.as_map() == combined_map(mid0.as_map(), rk, rv, r20.as_map()));
                assert(r0.as_map().dom().contains(rk));
                assert forall|e: u64| #[trigger]
                    mid0.as_map().dom().contains(e) implies e < rk by {
                    if lt0.as_map().dom().contains(e) {
                    } else {
                        assert(r0.as_map().dom().contains(e));
                    }
                }
                assert forall|e: u64| #[trigger]
                    r20.as_map().dom().contains(e) implies e > rk by {}
                assert(out.bst_ordered());
                assert(out.as_map() =~= l0.as_map().union_prefer_right(r0.as_map()));
                assert(mid0.no_red_red());
                assert(out.no_red_red_below());
                assert(mid0.black_height() == lt0.black_height());
                assert(r20.black_height() == lt0.black_height());
                assert(out.black_balanced());
                assert(out.black_height() == l0.black_height());
            }
            out
        },
        (Tree::Node { color: Color::Red, key: lk, value: lv, left: l1, right: r1 }, rt) => {
            let ghost rt0 = rt;
            let ghost l10 = *l1;
            let ghost r10 = *r1;
            proof {
                assert(l0.as_map() == combined_map(l10.as_map(), lk, lv, r10.as_map()));
                assert(rt0.color() == Color::Black);
                assert(r10.bst_ordered() && r10.no_red_red() && r10.black_balanced());
                assert(r10.color() == Color::Black);
                assert(r10.black_height() == rt0.black_height());
                assert forall|e1: u64, e2: u64|
                    #![trigger r10.as_map().dom().contains(e1), rt0.as_map().dom().contains(e2)]
                    r10.as_map().dom().contains(e1) && rt0.as_map().dom().contains(e2)
                    implies e1 < e2 by {
                    assert(l0.as_map().dom().contains(e1));
                }
            }
            let mid = join(*r1, rt);
            let ghost mid0 = mid;
            let out = Tree::Node {
                color: Color::Red,
                key: lk,
                value: lv,
                left: l1,
                right: Box::new(mid),
            };
            proof {
                assert(out.as_map() == combined_map(l10.as_map(), lk, lv, mid0.as_map()));
                assert(l0.as_map().dom().contains(lk));
                assert forall|e: u64| #[trigger]
                    mid0.as_map().dom().contains(e) implies e > lk by {
                    if r10.as_map().dom().contains(e) {
                    } else {
                        assert(rt0.as_map().dom().contains(e));
                        assert(l0.as_map().dom().contains(lk));
                    }
                }
                assert forall|e: u64| #[trigger]
                    l10.as_map().dom().contains(e) implies e < lk by {}
                assert(out.bst_ordered());
                assert(out.as_map() =~= l0.as_map().union_prefer_right(r0.as_map()));
                assert(mid0.no_red_red());
                assert(out.no_red_red_below());
                assert(mid0.black_height() == r10.black_height());
                assert(l10.black_height() == r10.black_height());
                assert(out.black_balanced());
                assert(out.black_height() == l0.black_height());
            }
            out
        },
    }
}

/// Binary-search descent for a key; returns the stored value.
fn find(t: &Tree, key: u64) -> (r: Option<u64>)
    requires
        t.bst_ordered(),
    ensures
        r == if t.as_map().dom().contains(key) {
            Some(t.as_map()[key])
        } else {
            None::<u64>
        },
    decreases t,
{
    match t {
        Tree::Leaf => None,
        Tree::Node { key: a, value, left, right, .. } => {
            if key == *a {
                Some(*value)
            } else if key < *a {
                proof {
                    assert(!right.as_map().dom().contains(key));
                }
                find(left, key)
            } else {
                proof {
                    assert(!left.as_map().dom().contains(key));
                }
                find(right, key)
            }
        },
    }
}

/// Removes the node holding `key`, which must be present, and returns its
/// value. The result is one black level shorter when the root was black;
/// repainting the new root black restores the full invariant.
fn del(t: Tree, key: u64) -> (res: (Tree, u64))
    requires
        t.bst_ordered(),
        t.no_red_red(),
        t.black_balanced(),
        t.as_map().dom().contains(key),
    ensures
        res.0.bst_ordered(),
        res.0.black_balanced(),
        res.0.as_map() == t.as_map().remove(key),
        res.1 == t.as_map()[key],
        res.0.no_red_red_below(),
        t.color() == Color::Red ==> res.0.black_height() == t.black_height()
            && res.0.no_red_red(),
        t.color() == Color::Black ==> res.0.black_height() + 1 == t.black_height(),
    decreases t,
{
    let ghost t0 = t;
    match t {
        Tree::Leaf => {
            proof {
                assert(t0.as_map().dom() =~= Set::<u64>::empty());
                assert(false);
            }
            (Tree::Leaf, 0)
        },
        Tree::Node { color, key: a, value: av, left: l, right: r } => {
            let l = *l;
            let r = *r;
            let ghost lg = l;
            let ghost rg = r;
            proof {
                assert(t0.as_map() == combined_map(lg.as_map(), a, av, rg.as_map()));
            }
            if key < a {
                proof {
                    assert(!rg.as_map().dom().contains(key));
                    assert(lg.as_map().dom().contains(key));
                }
                let use_bald = is_black_node(&l);
                let (l2, rv) = del(l, key);
                let ghost l2g = l2;
                proof {
                    assert forall|e: u64| #[trigger]
                        l2g.as_map().dom().contains(e) implies e < a by {
                        assert(lg.as_map().dom().contains(e));
                    }
                    assert(rv == t0.as_map()[key]);
                }
                if use_bald {
                    let out = bald_l(l2, a, av, r);
                    proof {
                        assert(out.as_map() =~= t0.as_map().remove(key));
                        if color == Color::Red {
                            assert(rg.color() == Color::Black);
                            assert(out.no_red_red());
                        }
                    }
                    (out, rv)
                } else {
                    proof {
                        assert(!(lg is Leaf));
                        assert(lg.color() == Color::Red);
                        assert(color == Color::Black);
                        assert(l2g.no_red_red());
                        assert(l2g.black_height() == lg.black_height());
                    }
                    let out = Tree::Node {
                        color: Color::Red,
                        key: a,
                        value: av,
                        left: Box::new(l2),
                        right: Box::new(r),
                    };
                    proof {
                        assert(out.as_map() == combined_map(l2g.as_map(), a, av, rg.as_map()));
                        assert(out.as_map() =~= t0.as_map().remove(key));
                        assert(out.bst_ordered());
                        assert(out.no_red_red_below());
                        assert(out.black_balanced());
                        assert(out.black_height() + 1 == t0.black_height());
                    }
                    (out, rv)
                }
            } else if key > a {
                proof {
                    assert(!lg.as_map().dom().contains(key));
                    assert(rg.as_map().dom().contains(key));
                }
                let use_bald = is_black_node(&r);
                let (r2, rv) = del(r, key);
                let ghost r2g = r2;
                proof {
                    assert forall|e: u64| #[trigger]
                        r2g.as_map().dom().contains(e) implies e > a by {
                        assert(rg.as_map().dom().contains(e));
                    }
                    assert(rv == t0.as_map()[key]);
                }
                if use_bald {
                    let out = bald_r(l, a, av, r2);
                    proof {
                        assert(out.as_map() =~= t0.as_map().remove(key));
                        if color == Color::Red {
                            assert(lg.color() == Color::Black);
                            assert(out.no_red_red());
                        }
                    }
                    (out, rv)
                } else {
                    proof {
                        assert(!(rg is Leaf));
                        assert(rg.color() == Color::Red);
                        assert(color == Color::Black);
                        assert(r2g.no_red_red());
                        assert(r2g.black_height() == rg.black_height());
                    }
                    let out = Tree::Node {
                        color: Color::Red,
                        key: a,
                        value: av,
                        left: Box::new(l),
                        right: Box::new(r2),
                    };
                    proof {
                        assert(out.as_map() == combined_map(lg.as_map(), a, av, r2g.as_map()));
                        assert(out.as_map() =~= t0.as_map().remove(key));
                        assert(out.bst_ordered());
                        assert(out.no_red_red_below());
                        assert(out.black_balanced());
                        assert(out.black_height() + 1 == t0.black_height());
                    }
                    (out, rv)
                }
            } else {
                proof {
                    assert(!lg.as_map().dom().contains(a));
                    assert(!rg.as_map().dom().contains(a));
                    assert(av == t0.as_map()[key]);
                    assert forall|e1: u64, e2: u64|
                        #![trigger lg.as_map().dom().contains(e1), rg.as_map().dom().contains(e2)]
                        lg.as_map().dom().contains(e1) && rg.as_map().dom().contains(e2)
                        implies e1 < e2 by {}
                }
                let out = join(l, r);
                proof {
                    assert(out.as_map() =~= t0.as_map().remove(key));
                    if color == Color::Red {
                        assert(lg.color() == Color::Black && rg.color() == Color::Black);
                        assert(out.no_red_red());
                    }
                }
                (out, av)
            }
        },
    }
}

/// The subtree after promoting the right child of its root into the root
/// position, each node keeping its own colour; the subtree itself when
/// there is no right child to promote.
spec fn rot_left(t: Tree) -> Tree {
    match t {
        Tree::Node { color, key, value, left, right } => match *right {
            Tree::Node { color: c2, key: k2, value: v2, left: rl, right: rr } => Tree::Node {
                color: c2,
                key: k2,
                value: v2,
                left: Box::new(Tree::Node { color, key, value, left, right: rl }),
                right: rr,
            },
            Tree::Leaf => t,
        },
        Tree::Leaf => t,
    }
}

/// Mirror image of `rot_left`: promotes the left child of the root.
spec fn rot_right(t: Tree) -> Tree {
    match t {
        Tree::Node { color, key, value, left, right } => match *left {
            Tree::Node { color: c2, key: k2, value: v2, left: ll, right: lr } => Tree::Node {
                color: c2,
                key: k2,
                value: v2,
                left: ll,
                right: Box::new(Tree::Node { color, key, value, left: lr, right }),
            },
            Tree::Leaf => t,
        },
        Tree::Leaf => t,
    }
}

/// The ordered map. Its abstract value is a `Map<u64, u64>`; every operation
/// is specified against that view, and the red-black invariants are carried
/// in `well_formed`.
pub struct RedBlackTree {
    root: Tree,
    count: usize,
}

impl View for RedBlackTree {
    type V = Map<u64, u64>;

    closed spec fn view(&self) -> Map<u64, u64> {
        self.root.as_map()
    }
}

impl RedBlackTree {
    /// The stored entries in ascending key order.
    pub closed spec fn to_seq(self) -> Seq<(u64, u64)> {
        self.root.in_order()
    }

    /// Binary-search order holds and `count` matches the number of keys.
    /// This much survives a bare rotation.
    pub closed spec fn ordered(self) -> bool {
        &&& self.root.bst_ordered()
        &&& self.root.as_map().dom().finite()
        &&& self.count == self.root.as_map().dom().len()
    }

    /// The colour side of the red-black invariant: no red node with a red
    /// child, uniform black height, and a black root.
    pub closed spec fn colors_sound(self) -> bool {
        &&& self.root.no_red_red()
        &&& self.root.black_balanced()
        &&& self.root.color() == Color::Black
    }

    /// The full red-black invariant: binary-search order with an accurate
    /// count, plus the colour rules that bound the height.
    pub open spec fn well_formed(self) -> bool {
        self.ordered() && self.colors_sound()
    }

    /// Number of nodes on the longest path from the root down to a leaf.
    pub closed spec fn height(self) -> nat {
        self.root.height()
    }

    /// The entry stored at the root, or nothing for an empty tree.
    pub closed spec fn root_entry(self) -> Option<(u64, u64)> {
        match self.root {
            Tree::Leaf => None,
            Tree::Node { key, value, .. } => Some((key, value)),
        }
    }

    /// The entries of the root's left subtree, in ascending key order.
    pub closed spec fn left_seq(self) -> Seq<(u64, u64)> {
        match self.root {
            Tree::Leaf => Seq::empty(),
            Tree::Node { left, .. } => left.in_order(),
        }
    }

    /// The entries of the root's right subtree, in ascending key order.
    pub closed spec fn right_seq(self) -> Seq<(u64, u64)> {
        match self.root {
            Tree::Leaf => Seq::empty(),
            Tree::Node { right, .. } => right.in_order(),
        }
    }

    /// Whether the root has a right child, the one thing a left rotation
    /// needs.
    pub open spec fn can_rotate_left(self) -> bool {
        self.right_seq().len() > 0
    }

    /// Whether the root has a left child, the one thing a right rotation
    /// needs.
    pub open spec fn can_rotate_right(self) -> bool {
        self.left_seq().len() > 0
    }

    /// The tree after a left rotation at the root.
    pub closed spec fn rotated_left(self) -> RedBlackTree {
        RedBlackTree { root: rot_left(self.root), count: self.count }
    }

    /// The tree after a right rotation at the root.
    pub closed spec fn rotated_right(self) -> RedBlackTree {
        RedBlackTree { root: rot_right(self.root), count: self.count }
    }

    /// The balance guarantee the colour rules buy: a well-formed tree with
    /// `n` entries is never deeper than `2 * log2(n + 1)`, stated here as
    /// two to the power of half the height being at most `n + 1`.
    pub proof fn lemma_height_logarithmic(self)
        requires
            self.well_formed(),
        ensures
            vstd::arithmetic::power2::pow2(self.height() / 2) <= self@.dom().len() + 1,
    {
        lemma_height_le_black_height(self.root);
        lemma_size_ge_pow2_black_height(self.root);
        lemma_in_order_facts(self.root);
        let bh = self.root.black_height();
        let h = self.root.height();
        assert(h / 2 <= bh);
        if h / 2 < bh {
            vstd::arithmetic::power2::lemma_pow2_strictly_increases(h / 2, bh);
        }
    }

    /// An empty map.
    pub fn new() -> (tree: RedBlackTree)
        ensures
            tree.well_formed(),
            tree@ == Map::<u64, u64>::empty(),
            tree.to_seq() == Seq::<(u64, u64)>::empty(),
    {
        proof {
            assert(Tree::Leaf.as_map().dom() =~= Set::<u64>::empty());
        }
        RedBlackTree { root: Tree::Leaf, count: 0 }
    }

    /// Number of stored entries.
    pub fn len(&self) -> (n: usize)
        requires
            self.ordered(),
        ensures
            n == self@.dom().len(),
    {
        self.count
    }

    /// Whether no entry is stored.
    pub fn is_empty(&self) -> (empty: bool)
        requires
            self.ordered(),
        ensures
            empty == (self@.dom().len() == 0),
    {
        self.count == 0
    }

    /// Upserts: adds the entry, or silently overwrites the value stored
    /// under an already-present key.
    pub fn insert(&mut self, key: u64, value: u64)
        requires
            old(self).well_formed(),
            old(self)@.dom().len() < usize::MAX,
        ensures
            final(self).well_formed(),
            final(self)@ == old(self)@.insert(key, value),
            old(self)@.dom().contains(key) ==> final(self)@.dom().len() == old(self)@.dom().len(),
            !old(self)@.dom().contains(key) ==> final(self)@.dom().len() == old(
                self,
            )@.dom().len() + 1,
    {
        let mut root = Tree::Leaf;
        core::mem::swap(&mut self.root, &mut root);
        let (new_root, added) = ins(root, key, value);
        let new_root = paint_black(new_root);
        self.root = new_root;
        proof {
            vstd::set::axiom_set_insert_len(old(self)@.dom(), key);
            assert(self.root.as_map().dom() =~= old(self)@.dom().insert(key));
        }
        if added {
            self.count = self.count + 1;
        }
    }

    /// Removes a key and returns the value that was stored under it. An
    /// absent key is reported as `None` and the tree is left untouched.
    pub fn remove(&mut self, key: u64) -> (removed: Option<u64>)
        requires
            old(self).well_formed(),
        ensures
            final(self).well_formed(),
            final(self)@ == old(self)@.remove(key),
            removed == if old(self)@.dom().contains(key) {
                Some(old(self)@[key])
            } else {
                None::<u64>
            },
            !old(self)@.dom().contains(key) ==> *final(self) == *old(self),
            old(self)@.dom().contains(key) ==> final(self)@.dom().len() + 1 == old(
                self,
            )@.dom().len(),
    {
        let found = find(&self.root, key);
        if found.is_none() {
            proof {
                assert(old(self)@.remove(key) =~= old(self)@);
            }
            return None;
        }
        let mut root = Tree::Leaf;
        core::mem::swap(&mut self.root, &mut root);
        let (new_root, val) = del(root, key);
        let new_root = paint_black(new_root);
        self.root = new_root;
        proof {
            vstd::set::axiom_set_remove_len(old(self)@.dom(), key);
            assert(self.root.as_map().dom() =~= old(self)@.dom().remove(key));
        }
        self.count = self.count - 1;
        Some(val)
    }

    /// Removes every entry.
    pub fn clear(&mut self)
        ensures
            final(self).well_formed(),
            final(self)@ == Map::<u64, u64>::empty(),
    {
        proof {
            assert(Tree::Leaf.as_map().dom() =~= Set::<u64>::empty());
        }
        self.root = Tree::Leaf;
        self.count = 0;
    }

    /// Looks a key up; returns the stored value or nothing.
    pub fn get(&self, key: u64) -> (r: Option<u64>)
        requires
            self.ordered(),
        ensures
            r == if self@.dom().contains(key) {
                Some(self@[key])
            } else {
                None::<u64>
            },
    {
        find(&self.root, key)
    }

    /// Whether the key is stored.
    pub fn contains_key(&self, key: u64) -> (r: bool)
        requires
            self.ordered(),
        ensures
            r == self@.dom().contains(key),
    {
        let found = find(&self.root, key);
        found.is_some()
    }

    /// A two-ended walk over the entries in ascending key order. The walk
    /// visits every stored entry exactly once, keys strictly ascending, and
    /// its length equals `len()`.
    pub fn iter(&self) -> (it: Iter)
        requires
            self.ordered(),
        ensures
            it.valid(),
            it.remaining() == self.to_seq(),
            it.remaining().len() == self@.dom().len(),
            forall|i: int|
                0 <= i < it.remaining().len() ==> #[trigger] self@.contains_pair(
                    it.remaining()[i].0,
                    it.remaining()[i].1,
                ),
            forall|i: int, j: int|
                0 <= i < j < it.remaining().len() ==> it.remaining()[i].0
                    < it.remaining()[j].0,
    {
        let mut entries: Vec<(u64, u64)> = Vec::new();
        push_in_order(&self.root, &mut entries);
        proof {
            lemma_in_order_facts(self.root);
            assert(entries@ =~= self.root.in_order());
        }
        let n = entries.len();
        let it = Iter { entries, front: 0, back: n };
        proof {
            assert(it.remaining() =~= self.root.in_order());
        }
        it
    }

    /// The keys alone, in ascending order.
    pub fn keys(&self) -> (it: Keys)
        requires
            self.ordered(),
        ensures
            it.valid(),
            it.remaining() == self.to_seq().map_values(|p: (u64, u64)| p.0),
            it.remaining().len() == self@.dom().len(),
            forall|i: int|
                0 <= i < it.remaining().len() ==> self@.dom().contains(
                    #[trigger] it.remaining()[i],
                ),
            forall|i: int, j: int|
                0 <= i < j < it.remaining().len() ==> it.remaining()[i] < it.remaining()[j],
    {
        let mut entries: Vec<(u64, u64)> = Vec::new();
        push_in_order(&self.root, &mut entries);
        proof {
            lemma_in_order_facts(self.root);
            assert(entries@ =~= self.root.in_order());
        }
        let mut ks: Vec<u64> = Vec::new();
        let n = entries.len();
        let mut i: usize = 0;
        while i < n
            invariant
                i <= n,
                n == entries.len(),
                ks@.len() == i,
                forall|j: int| 0 <= j < i ==> ks@[j] == entries@[j].0,
            decreases n - i,
        {
            let p = entries[i];
            ks.push(p.0);
            i = i + 1;
        }
        let it = Keys { keys: ks, front: 0, back: n };
        proof {
            assert(it.remaining() =~= entries@.map_values(|p: (u64, u64)| p.0));
            assert(it.remaining() =~= self.to_seq().map_values(|p: (u64, u64)| p.0));
            let s = self.root.in_order();
            assert forall|i: int| 0 <= i < it.remaining().len() implies self@.dom().contains(
                #[trigger] it.remaining()[i],
            ) by {
                assert(self@.contains_pair(s[i].0, s[i].1));
                assert(it.remaining()[i] == s[i].0);
            }
            assert forall|i: int, j: int| 0 <= i < j < it.remaining().len() implies
                it.remaining()[i] < it.remaining()[j] by {
                assert(s[i].0 < s[j].0);
            }
        }
        it
    }

    /// The values alone, in ascending order of their keys.
    pub fn values(&self) -> (it: Values)
        requires
            self.ordered(),
        ensures
            it.valid(),
            it.remaining() == self.to_seq().map_values(|p: (u64, u64)| p.1),
            it.remaining().len() == self@.dom().len(),
    {
        let mut entries: Vec<(u64, u64)> = Vec::new();
        push_in_order(&self.root, &mut entries);
        proof {
            lemma_in_order_facts(self.root);
            assert(entries@ =~= self.root.in_order());
        }
        let mut vs: Vec<u64> = Vec::new();
        let n = entries.len();
        let mut i: usize = 0;
        while i < n
            invariant
                i <= n,
                n == entries.len(),
                vs@.len() == i,
                forall|j: int| 0 <= j < i ==> vs@[j] == entries@[j].1,
            decreases n - i,
        {
            let p = entries[i];
            vs.push(p.1);
            i = i + 1;
        }
        let it = Values { values: vs, front: 0, back: n };
        proof {
            assert(it.remaining() =~= entries@.map_values(|p: (u64, u64)| p.1));
            assert(it.remaining() =~= self.to_seq().map_values(|p: (u64, u64)| p.1));
        }
        it
    }

    /// Promotes the right child of the root to the root position: the old
    /// root, with its left subtree and the promoted child's left subtree,
    /// becomes the new left child. The rotation never changes the in-order
    /// sequence of entries, and so rotating left and then right restores
    /// the original sequence; with no right child to promote, the tree is
    /// left exactly as it is.
    pub fn rotate_left(&mut self)
        requires
            old(self).ordered(),
        ensures
            final(self).ordered(),
            final(self)@ == old(self)@,
            final(self).to_seq() == old(self).to_seq(),
            *final(self) == old(self).rotated_left(),
            !old(self).can_rotate_left() ==> *final(self) == *old(self),
            old(self).can_rotate_left() ==> final(self).left_seq().len()
                > old(self).left_seq().len(),
            old(self).can_rotate_left() ==> final(self).left_seq().take(
                old(self).left_seq().len() as int,
            ) == old(self).left_seq(),
            old(self).can_rotate_left() ==> final(self).left_seq()[old(self).left_seq().len() as int]
                == old(self).root_entry().unwrap(),
            old(self).can_rotate_left() ==> old(self).right_seq() == final(self).left_seq().skip(
                old(self).left_seq().len() as int + 1,
            ) + seq![final(self).root_entry().unwrap()] + final(self).right_seq(),
    {
        let mut root = Tree::Leaf;
        core::mem::swap(&mut self.root, &mut root);
        match root {
            Tree::Node { color, key, value, left, right } => {
                let ghost lg = *left;
                let right = *right;
                match right {
                    Tree::Node { color: c2, key: k2, value: v2, left: rl, right: rr } => {
                        let ghost rg = right;
                        let ghost rl0 = *rl;
                        let ghost rr0 = *rr;
                        let nl = Tree::Node { color, key, value, left, right: rl };
                        let out = Tree::Node {
                            color: c2,
                            key: k2,
                            value: v2,
                            left: Box::new(nl),
                            right: rr,
                        };
                        proof {
                            let kv = (key, value);
                            let kv2 = (k2, v2);
                            assert(lg.bst_ordered() && rg.bst_ordered());
                            assert(rl0.bst_ordered() && rr0.bst_ordered());
                            assert(old(self).root.as_map() == combined_map(lg.as_map(), key,
                                value, rg.as_map()));
                            assert(rg.as_map() == combined_map(rl0.as_map(), k2, v2,
                                rr0.as_map()));
                            assert(nl.in_order() == lg.in_order() + seq![kv] + rl0.in_order());
                            assert(out.in_order() == nl.in_order() + seq![kv2]
                                + rr0.in_order());
                            assert(rg.in_order() == rl0.in_order() + seq![kv2]
                                + rr0.in_order());
                            assert(old(self).root.in_order() == lg.in_order() + seq![kv]
                                + rg.in_order());
                            assert(out.in_order() =~= old(self).root.in_order());
                            assert(rg.as_map().dom().contains(k2));
                            assert forall|e: u64| #[trigger]
                                rl0.as_map().dom().contains(e) implies key < e && e < k2 by {
                                assert(rg.as_map().dom().contains(e));
                            }
                            assert forall|e: u64| #[trigger]
                                rr0.as_map().dom().contains(e) implies e > k2 by {
                                assert(rg.as_map().dom().contains(e));
                            }
                            lemma_map_rotate(
                                lg.as_map(),
                                key,
                                value,
                                rl0.as_map(),
                                k2,
                                v2,
                                rr0.as_map(),
                            );
                            assert(nl.as_map() == combined_map(lg.as_map(), key, value,
                                rl0.as_map()));
                            assert(out.as_map() == old(self).root.as_map());
                            assert(nl.bst_ordered());
                            assert(out.bst_ordered());
                        }
                        self.root = out;
                        proof {
                            let kv = (key, value);
                            let kv2 = (k2, v2);
                            assert(self.root == rot_left(old(self).root));
                            assert(*self == old(self).rotated_left());
                            assert(self.left_seq() == nl.in_order());
                            assert(self.right_seq() == rr0.in_order());
                            assert(old(self).left_seq() == lg.in_order());
                            assert(old(self).right_seq() == rg.in_order());
                            let a = lg.in_order().len() as int;
                            assert(self.left_seq().take(a) =~= lg.in_order());
                            assert(self.left_seq().skip(a + 1) =~= rl0.in_order());
                            assert(self.left_seq()[a] == kv);
                            assert(old(self).right_seq() == self.left_seq().skip(a + 1) + seq![
                                kv2,
                            ] + self.right_seq());
                        }
                    },
                    other => {
                        let restored = Tree::Node {
                            color,
                            key,
                            value,
                            left,
                            right: Box::new(other),
                        };
                        proof {
                            assert(restored == old(self).root);
                            assert(rot_left(old(self).root) == old(self).root);
                            assert(old(self).right_seq() == Tree::Leaf.in_order());
                        }
                        self.root = restored;
                    },
                }
            },
            Tree::Leaf => {
                self.root = Tree::Leaf;
                proof {
                    assert(*self == *old(self));
                    assert(rot_left(old(self).root) == old(self).root);
                }
            },
        }
    }

    /// Mirror image of `rotate_left`: promotes the left child of the root,
    /// demoting the old root, with the promoted child's right subtree and
    /// the old right subtree, into the new right child.
    pub fn rotate_right(&mut self)
        requires
            old(self).ordered(),
        ensures
            final(self).ordered(),
            final(self)@ == old(self)@,
            final(self).to_seq() == old(self).to_seq(),
            *final(self) == old(self).rotated_right(),
            !old(self).can_rotate_right() ==> *final(self) == *old(self),
            old(self).can_rotate_right() ==> final(self).right_seq().len()
                > old(self).right_seq().len(),
            old(self).can_rotate_right() ==> final(self).right_seq().skip(
                final(self).right_seq().len() as int - old(self).right_seq().len() as int,
            ) == old(self).right_seq(),
            old(self).can_rotate_right() ==> final(self).right_seq()[final(self).right_seq().len() as int
                - old(self).right_seq().len() as int - 1] == old(self).root_entry().unwrap(),
            old(self).can_rotate_right() ==> old(self).left_seq() == final(self).left_seq()
                + seq![final(self).root_entry().unwrap()] + final(self).right_seq().take(
                final(self).right_seq().len() as int - old(self).right_seq().len() as int - 1,
            ),
    {
        let mut root = Tree::Leaf;
        core::mem::swap(&mut self.root, &mut root);
        match root {
            Tree::Node { color, key, value, left, right } => {
                let ghost rg = *right;
                let left = *left;
                match left {
                    Tree::Node { color: c2, key: k2, value: v2, left: ll, right: lr } => {
                        let ghost lg = left;
                        let ghost ll0 = *ll;
                        let ghost lr0 = *lr;
                        let nr = Tree::Node { color, key, value, left: lr, right };
                        let out = Tree::Node {
                            color: c2,
                            key: k2,
                            value: v2,
                            left: ll,
                            right: Box::new(nr),
                        };
                        proof {
                            let kv = (key, value);
                            let kv2 = (k2, v2);
                            assert(lg.bst_ordered() && rg.bst_ordered());
                            assert(ll0.bst_ordered() && lr0.bst_ordered());
                            assert(old(self).root.as_map() == combined_map(lg.as_map(), key,
                                value, rg.as_map()));
                            assert(lg.as_map() == combined_map(ll0.as_map(), k2, v2,
                                lr0.as_map()));
                            assert(nr.in_order() == lr0.in_order() + seq![kv] + rg.in_order());
                            assert(out.in_order() == ll0.in_order() + seq![kv2]
                                + nr.in_order());
                            assert(lg.in_order() == ll0.in_order() + seq![kv2]
                                + lr0.in_order());
                            assert(old(self).root.in_order() == lg.in_order() + seq![kv]
                                + rg.in_order());
                            assert(out.in_order() =~= old(self).root.in_order());
                            assert(lg.as_map().dom().contains(k2));
                            assert forall|e: u64| #[trigger]
                                lr0.as_map().dom().contains(e) implies k2 < e && e < key by {
                                assert(lg.as_map().dom().contains(e));
                            }
                            assert forall|e: u64| #[trigger]
                                ll0.as_map().dom().contains(e) implies e < k2 by {}
                            lemma_map_rotate(
                                ll0.as_map(),
                                k2,
                                v2,
                                lr0.as_map(),
                                key,
                                value,
                                rg.as_map(),
                            );
                            assert(nr.as_map() == combined_map(lr0.as_map(), key, value,
                                rg.as_map()));
                            assert(lg.as_map() == combined_map(ll0.as_map(), k2, v2,
                                lr0.as_map()));
                            assert(out.as_map() == old(self).root.as_map());
                            assert(nr.bst_ordered());
                            assert(out.bst_ordered());
                        }
                        self.root = out;
                        proof {
                            let kv = (key, value);
                            let kv2 = (k2, v2);
                            assert(self.root == rot_right(old(self).root));
                            assert(*self == old(self).rotated_right());
                            assert(self.left_seq() == ll0.in_order());
                            assert(self.right_seq() == nr.in_order());
                            assert(old(self).left_seq() == lg.in_order());
                            assert(old(self).right_seq() == rg.in_order());
                            let d = self.right_seq().len() as int
                                - old(self).right_seq().len() as int;
                            assert(d == lr0.in_order().len() + 1);
                            assert(self.right_seq().skip(d) =~= rg.in_order());
                            assert(self.right_seq().take(d - 1) =~= lr0.in_order());
                            assert(self.right_seq()[d - 1] == kv);
                            assert(old(self).left_seq() == self.left_seq() + seq![kv2]
                                + self.right_seq().take(d - 1));
                        }
                    },
                    other => {
                        let restored = Tree::Node {
                            color,
                            key,
                            value,
                            left: Box::new(other),
                            right,
                        };
                        proof {
                            assert(restored == old(self).root);
                            assert(rot_right(old(self).root) == old(self).root);
                            assert(old(self).left_seq() == Tree::Leaf.in_order());
                        }
                        self.root = restored;
                    },
                }
            },
            Tree::Leaf => {
                self.root = Tree::Leaf;
                proof {
                    assert(*self == *old(self));
                    assert(rot_right(old(self).root) == old(self).root);
                }
            },
        }
    }
}

impl Default for RedBlackTree {
    /// The empty map, as `new` builds it.
    fn default() -> (tree: Self)
        ensures
            tree.well_formed(),
            tree@ == Map::<u64, u64>::empty(),
    {
        RedBlackTree::new()
    }
}

/// Overwriting law: inserting under one key twice keeps a single entry,
/// holding the later value, and leaves the key set — and so `len` — exactly
/// as a single insertion would. Together with the contract of `insert`,
/// this pins down what a repeated insertion does to the container.
pub proof fn lemma_insert_overwrite(m: Map<u64, u64>, key: u64, first: u64, second: u64)
    ensures
        m.insert(key, first).insert(key, second) == m.insert(key, second),
        m.insert(key, first).dom() == m.insert(key, second).dom(),
{
    assert(m.insert(key, first).insert(key, second) =~= m.insert(key, second));
    assert(m.insert(key, first).dom() =~= m.insert(key, second).dom());
}

/// Round-trip law: removing a key that was just inserted gives the same map
/// as removing it from the original; a key that was absent beforehand comes
/// back to the original map exactly. Together with the contracts of
/// `insert` and `remove`, inserting any number of distinct fresh keys and
/// then removing all of them, in any order, restores the map the container
/// started from — starting empty, it ends empty.
pub proof fn lemma_insert_then_remove(m: Map<u64, u64>, key: u64, value: u64)
    ensures
        m.insert(key, value).remove(key) == m.remove(key),
        !m.dom().contains(key) ==> m.insert(key, value).remove(key) == m,
{
    assert(m.insert(key, value).remove(key) =~= m.remove(key));
    if !m.dom().contains(key) {
        assert(m.remove(key) =~= m);
    }
}

/// Rotation law: either rotation at the root keeps the in-order sequence
/// of entries, and a left rotation followed by a right rotation at the new
/// root — or the other way round — restores the original tree exactly.
pub proof fn lemma_rotation_round_trip(t: RedBlackTree)
    ensures
        t.rotated_left().to_seq() == t.to_seq(),
        t.rotated_right().to_seq() == t.to_seq(),
        t.can_rotate_left() ==> t.rotated_left().rotated_right() == t,
        t.can_rotate_right() ==> t.rotated_right().rotated_left() == t,
{
    match t.root {
        Tree::Leaf => {
            assert(rot_left(t.root) == t.root);
            assert(rot_right(t.root) == t.root);
            assert(t.rotated_left() == t);
            assert(t.rotated_right() == t);
        },
        Tree::Node { color, key, value, left, right } => {
            match *right {
                Tree::Node { color: c2, key: k2, value: v2, left: rl, right: rr } => {
                    let u = rot_left(t.root);
                    let nl = Tree::Node { color, key, value, left, right: rl };
                    assert(u == Tree::Node {
                        color: c2,
                        key: k2,
                        value: v2,
                        left: Box::new(nl),
                        right: rr,
                    });
                    assert(u.in_order() == nl.in_order() + seq![(k2, v2)] + rr.in_order());
                    assert(nl.in_order() == left.in_order() + seq![(key, value)]
                        + rl.in_order());
                    assert((*right).in_order() == rl.in_order() + seq![(k2, v2)]
                        + rr.in_order());
                    assert(t.root.in_order() == left.in_order() + seq![(key, value)]
                        + (*right).in_order());
                    assert(u.in_order() =~= t.root.in_order());
                    assert(rot_right(u) == t.root);
                    assert(t.rotated_left().rotated_right() == t);
                },
                Tree::Leaf => {
                    assert(rot_left(t.root) == t.root);
                    assert(t.right_seq().len() == 0);
                    assert(t.rotated_left() == t);
                },
            }
            match *left {
                Tree::Node { color: c2, key: k2, value: v2, left: ll, right: lr } => {
                    let u = rot_right(t.root);
                    let nr = Tree::Node { color, key, value, left: lr, right };
                    assert(u == Tree::Node {
                        color: c2,
                        key: k2,
                        value: v2,
                        left: ll,
                        right: Box::new(nr),
                    });
                    assert(u.in_order() == ll.in_order() + seq![(k2, v2)] + nr.in_order());
                    assert(nr.in_order() == lr.in_order() + seq![(key, value)]
                        + right.in_order());
                    assert((*left).in_order() == ll.in_order() + seq![(k2, v2)]
                        + lr.in_order());
                    assert(t.root.in_order() == (*left).in_order() + seq![(key, value)]
                        + right.in_order());
                    assert(u.in_order() =~= t.root.in_order());
                    assert(rot_left(u) == t.root);
                    assert(t.rotated_right().rotated_left() == t);
                },
                Tree::Leaf => {
                    assert(rot_right(t.root) == t.root);
                    assert(t.left_seq().len() == 0);
                    assert(t.rotated_right() == t);
                },
            }
        },
    }
}

/// What the ascending entry view satisfies on any ordered tree: exactly
/// the stored entries, strictly ascending by key — so no key appears at
/// two positions — and as many entries as the map has keys.
pub proof fn lemma_to_seq_facts(t: RedBlackTree)
    requires
        t.ordered(),
    ensures
        t.to_seq().len() == t@.dom().len(),
        forall|i: int|
            0 <= i < t.to_seq().len() ==> #[trigger] t@.contains_pair(
                t.to_seq()[i].0,
                t.to_seq()[i].1,
            ),
        forall|i: int, j: int|
            0 <= i < j < t.to_seq().len() ==> t.to_seq()[i].0 < t.to_seq()[j].0,
{
    lemma_in_order_facts(t.root);
}

/// Appends the subtree's entries, in ascending key order, to `out`.
fn push_in_order(t: &Tree, out: &mut Vec<(u64, u64)>)
    ensures
        final(out)@ == old(out)@ + t.in_order(),
    decreases t,
{
    let ghost start = out@;
    match t {
        Tree::Leaf => {
            proof {
                assert(out@ =~= start + t.in_order());
            }
        },
        Tree::Node { key, value, left, right, .. } => {
            push_in_order(left, out);
            out.push((*key, *value));
            push_in_order(right, out);
            proof {
                assert(out@ =~= start + t.in_order());
            }
        },
    }
}

/// A two-ended cursor over the entries of a tree, produced by `iter`. The
/// entries were collected up front, so the cursor stays valid on its own;
/// it does not observe later changes to the tree it came from.
pub struct Iter {
    entries: Vec<(u64, u64)>,
    front: usize,
    back: usize,
}

impl Iter {
    /// The entries not yet handed out, in order.
    pub closed spec fn remaining(self) -> Seq<(u64, u64)> {
        self.entries@.subrange(self.front as int, self.back as int)
    }

    /// The cursor's bounds are in range.
    pub closed spec fn valid(self) -> bool {
        self.front <= self.back <= self.entries@.len()
    }

    /// The next entry from the front, or nothing when the walk is done.
    pub fn next(&mut self) -> (item: Option<(u64, u64)>)
        requires
            old(self).valid(),
        ensures
            final(self).valid(),
            old(self).remaining().len() == 0 ==> item is None && final(self).remaining()
                == old(self).remaining(),
            old(self).remaining().len() > 0 ==> item == Some(old(self).remaining()[0])
                && final(self).remaining() == old(self).remaining().drop_first(),
    {
        if self.front < self.back {
            let p = self.entries[self.front];
            self.front = self.front + 1;
            proof {
                assert(self.remaining() =~= old(self).remaining().drop_first());
            }
            Some(p)
        } else {
            None
        }
    }

    /// The next entry from the back, or nothing when the walk is done.
    pub fn next_back(&mut self) -> (item: Option<(u64, u64)>)
        requires
            old(self).valid(),
        ensures
            final(self).valid(),
            old(self).remaining().len() == 0 ==> item is None && final(self).remaining()
                == old(self).remaining(),
            old(self).remaining().len() > 0 ==> item == Some(old(self).remaining().last())
                && final(self).remaining() == old(self).remaining().drop_last(),
    {
        if self.front < self.back {
            let p = self.entries[self.back - 1];
            self.back = self.back - 1;
            proof {
                assert(self.remaining() =~= old(self).remaining().drop_last());
            }
            Some(p)
        } else {
            None
        }
    }
}

/// A two-ended cursor over the keys of a tree, produced by `keys`.
pub struct Keys {
    keys: Vec<u64>,
    front: usize,
    back: usize,
}

impl Keys {
    /// The keys not yet handed out, in order.
    pub closed spec fn remaining(self) -> Seq<u64> {
        self.keys@.subrange(self.front as int, self.back as int)
    }

    /// The cursor's bounds are in range.
    pub closed spec fn valid(self) -> bool {
        self.front <= self.back <= self.keys@.len()
    }

    /// The next key from the front, or nothing when the walk is done.
    pub fn next(&mut self) -> (item: Option<u64>)
        requires
            old(self).valid(),
        ensures
            final(self).valid(),
            old(self).remaining().len() == 0 ==> item is None && final(self).remaining()
                == old(self).remaining(),
            old(self).remaining().len() > 0 ==> item == Some(old(self).remaining()[0])
                && final(self).remaining() == old(self).remaining().drop_first(),
    {
        if self.front < self.back {
            let k = self.keys[self.front];
            self.front = self.front + 1;
            proof {
                assert(self.remaining() =~= old(self).remaining().drop_first());
            }
            Some(k)
        } else {
            None
        }
    }

    /// The next key from the back, or nothing when the walk is done.
    pub fn next_back(&mut self) -> (item: Option<u64>)
        requires
            old(self).valid(),
        ensures
            final(self).valid(),
            old(self).remaining().len() == 0 ==> item is None && final(self).remaining()
                == old(self).remaining(),
            old(self).remaining().len() > 0 ==> item == Some(old(self).remaining().last())
                && final(self).remaining() == old(self).remaining().drop_last(),
    {
        if self.front < self.back {
            let k = self.keys[self.back - 1];
            self.back = self.back - 1;
            proof {
                assert(self.remaining() =~= old(self).remaining().drop_last());
            }
            Some(k)
        } else {
            None
        }
    }
}

/// A two-ended cursor over the values of a tree, produced by `values`.
pub struct Values {
    values: Vec<u64>,
    front: usize,
    back: usize,
}

impl Values {
    /// The values not yet handed out, in ascending order of their keys.
    pub closed spec fn remaining(self) -> Seq<u64> {
        self.values@.subrange(self.front as int, self.back as int)
    }

    /// The cursor's bounds are in range.
    pub closed spec fn valid(self) -> bool {
        self.front <= self.back <= self.values@.len()
    }

    /// The next value from the front, or nothing when the walk is done.
    pub fn next(&mut self) -> (item: Option<u64>)
        requires
            old(self).valid(),
        ensures
            final(self).valid(),
            old(self).remaining().len() == 0 ==> item is None && final(self).remaining()
                == old(self).remaining(),
            old(self).remaining().len() > 0 ==> item == Some(old(self).remaining()[0])
                && final(self).remaining() == old(self).remaining().drop_first(),
    {
        if self.front < self.back {
            let v = self.values[self.front];
            self.front = self.front + 1;
            proof {
                assert(self.remaining() =~= old(self).remaining().drop_first());
            }
            Some(v)
        } else {
            None
        }
    }

    /// The next value from the back, or nothing when the walk is done.
    pub fn next_back(&mut self) -> (item: Option<u64>)
        requires
            old(self).valid(),
        ensures
            final(self).valid(),
            old(self).remaining().len() == 0 ==> item is None && final(self).remaining()
                == old(self).remaining(),
            old(self).remaining().len() > 0 ==> item == Some(old(self).remaining().last())
                && final(self).remaining() == old(self).remaining().drop_last(),
    {
        if self.front < self.back {
            let v = self.values[self.back - 1];
            self.back = self.back - 1;
            proof {
                assert(self.remaining() =~= old(self).remaining().drop_last());
            }
            Some(v)
        } else {
            None
        }
    }
}

} // verus!


