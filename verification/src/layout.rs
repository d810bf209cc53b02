//! How a tree lies in a graph: its nodes are numbered in pre-order, each node before its
//! children and each child before its younger siblings, and an edge leads from each parent
//! to each child.

use vstd::prelude::*;
use crate::graph::out_neighbors;
use crate::node::NodeWithChildren;

verus! {

/// The number of nodes of the trees of `forest`.
pub open spec fn forest_size<T>(forest: Seq<NodeWithChildren<T>>) -> nat
    decreases forest,
{
    if forest.len() == 0 {
        0
    } else {
        1 + forest_size(forest[0].children@) + forest_size(forest.drop_first())
    }
}

/// The subtrees of `forest` in pre-order: the subtree at a place is the one whose root has
/// that place.
pub open spec fn subtrees<T>(forest: Seq<NodeWithChildren<T>>) -> Seq<NodeWithChildren<T>>
    decreases forest,
{
    if forest.len() == 0 {
        Seq::empty()
    } else {
        seq![forest[0]] + subtrees(forest[0].children@) + subtrees(forest.drop_first())
    }
}

/// The edges of `forest` in pre-order of their targets, where the first node of `forest` has
/// the place `base` and the roots of `forest` are children of `up`, if that is a node.
pub open spec fn forest_edges<T>(forest: Seq<NodeWithChildren<T>>, up: Option<int>, base: int) -> Seq<
    (int, int),
>
    decreases forest,
{
    if forest.len() == 0 {
        Seq::empty()
    } else {
        root_edge(up, base) + forest_edges(forest[0].children@, Some(base), base + 1)
            + forest_edges(
            forest.drop_first(),
            up,
            base + 1 + forest_size(forest[0].children@),
        )
    }
}

/// The edge from `up` to the node at `place`, where `up` is a node.
pub open spec fn root_edge(up: Option<int>, place: int) -> Seq<(int, int)> {
    match up {
        Some(parent) => seq![(parent, place)],
        None => Seq::empty(),
    }
}

/// The places of the roots of `forest`, the last root first, where the first node of `forest`
/// has the place `base`.
pub open spec fn root_places_desc<T>(forest: Seq<NodeWithChildren<T>>, base: int) -> Seq<int> {
    Seq::new(forest.len(), |i: int| base + forest_size(forest.take(forest.len() - 1 - i)))
}

/// The nodes of a tree in pre-order are the subtrees of the forest of that one tree.
pub open spec fn tree_subtrees<T>(tree: NodeWithChildren<T>) -> Seq<NodeWithChildren<T>> {
    subtrees(seq![tree])
}

/// The edges of a tree whose root has the place 0.
pub open spec fn tree_edges<T>(tree: NodeWithChildren<T>) -> Seq<(int, int)> {
    forest_edges(seq![tree], None, 0)
}

/// A forest has as many subtrees as nodes.
pub proof fn lemma_subtrees_len<T>(forest: Seq<NodeWithChildren<T>>)
    ensures
        subtrees(forest).len() == forest_size(forest),
    decreases forest,
{
    if forest.len() > 0 {
        lemma_subtrees_len(forest[0].children@);
        lemma_subtrees_len(forest.drop_first());
    }
}

/// The size of the first trees of a forest, one tree more at a time.
pub proof fn lemma_size_take<T>(forest: Seq<NodeWithChildren<T>>, n: int)
    requires
        0 <= n < forest.len(),
    ensures
        forest_size(forest.take(n + 1)) == forest_size(forest.take(n)) + 1 + forest_size(
            forest[n].children@,
        ),
        forest_size(forest.take(n + 1)) <= forest_size(forest),
        forest_size(forest.take(0)) == 0,
        n > 0 ==> forest_size(forest.take(n)) == 1 + forest_size(forest[0].children@) + forest_size(
            forest.drop_first().take(n - 1),
        ),
    decreases forest,
{
    let rest = forest.drop_first();
    assert(forest.take(n + 1).drop_first() =~= rest.take(n));
    assert(forest.take(n + 1)[0] == forest[0]);
    if n == 0 {
        assert(forest.take(0) =~= Seq::empty());
        assert(rest.take(0) =~= Seq::empty());
        lemma_size_all(rest);
    } else {
        assert(forest.take(n).drop_first() =~= rest.take(n - 1));
        assert(forest.take(n)[0] == forest[0]);
        lemma_size_take(rest, n - 1);
        assert(rest[n - 1] == forest[n]);
    }
}

/// Taking every tree of a forest leaves its size.
pub proof fn lemma_size_all<T>(forest: Seq<NodeWithChildren<T>>)
    ensures
        forest_size(forest.take(forest.len() as int)) == forest_size(forest),
        forest_size(forest) >= 0,
{
    assert(forest.take(forest.len() as int) =~= forest);
}

/// The forest of one tree: its size, its subtrees and its edges.
pub proof fn lemma_single<T>(tree: NodeWithChildren<T>, up: Option<int>, base: int)
    ensures
        forest_size(seq![tree]) == 1 + forest_size(tree.children@),
        subtrees(seq![tree]) == seq![tree] + subtrees(tree.children@),
        forest_edges(seq![tree], up, base) == root_edge(up, base) + forest_edges(
            tree.children@,
            Some(base),
            base + 1,
        ),
{
    let f = seq![tree];
    assert(f.drop_first() =~= Seq::empty());
    assert(f[0] == tree);
    assert(forest_size(f.drop_first()) == 0);
    assert(subtrees(f.drop_first()) =~= Seq::empty());
    assert(forest_edges(f.drop_first(), up, base + 1 + forest_size(tree.children@)) =~= Seq::empty());
    assert(subtrees(f) =~= seq![tree] + subtrees(tree.children@));
    assert(forest_edges(f, up, base) =~= root_edge(up, base) + forest_edges(
        tree.children@,
        Some(base),
        base + 1,
    ));
}

/// With a parent for its roots, a forest has one edge for each node, and the edge with the
/// number `e` leads to the node at the place `base + e`, from the parent or from a node at
/// an earlier place of the forest.
pub proof fn lemma_edges_targets<T>(forest: Seq<NodeWithChildren<T>>, parent: int, base: int)
    requires
        0 <= parent < base,
    ensures
        forest_edges(forest, Some(parent), base).len() == forest_size(forest),
        forall|e: int|
            0 <= e < forest_size(forest) ==> {
                let edge = #[trigger] forest_edges(forest, Some(parent), base)[e];
                &&& edge.1 == base + e
                &&& (edge.0 == parent || base <= edge.0 < base + e)
            },
    decreases forest,
{
    if forest.len() > 0 {
        let kids = forest[0].children@;
        let rest = forest.drop_first();
        let cs = forest_size(kids) as int;
        lemma_edges_targets(kids, base, base + 1);
        lemma_edges_targets(rest, parent, base + 1 + cs);
        let a = root_edge(Some(parent), base);
        let b = forest_edges(kids, Some(base), base + 1);
        let c = forest_edges(rest, Some(parent), base + 1 + cs);
        let all = forest_edges(forest, Some(parent), base);
        assert(all == a + b + c);
        assert forall|e: int| 0 <= e < forest_size(forest) implies ({
            let edge = #[trigger] all[e];
            &&& edge.1 == base + e
            &&& (edge.0 == parent || base <= edge.0 < base + e)
        }) by {
            if e == 0 {
                assert(all[e] == a[0]);
            } else if e - 1 < cs {
                assert(all[e] == b[e - 1]);
            } else {
                assert(all[e] == c[e - 1 - cs]);
            }
        }
    }
}

/// The edges of a tree: one for each node but the root, the edge with the number `e` leads to
/// the node at the place `e + 1`, from a node at an earlier place.
pub proof fn lemma_tree_edges<T>(tree: NodeWithChildren<T>)
    ensures
        tree_edges(tree).len() == forest_size(seq![tree]) - 1,
        forall|e: int|
            0 <= e < tree_edges(tree).len() ==> {
                let edge = #[trigger] tree_edges(tree)[e];
                &&& edge.1 == e + 1
                &&& 0 <= edge.0 <= e
            },
{
    lemma_single(tree, None, 0);
    lemma_edges_targets(tree.children@, 0, 1);
    assert(tree_edges(tree) =~= forest_edges(tree.children@, Some(0), 1));
}

/// The neighbors of a node in edges that were added in two parts.
pub proof fn lemma_out_neighbors_add(a: Seq<(int, int)>, b: Seq<(int, int)>, node: int)
    ensures
        out_neighbors(a + b, node) == out_neighbors(b, node) + out_neighbors(a, node),
    decreases b.len(),
{
    if b.len() == 0 {
        assert(a + b =~= a);
        assert(out_neighbors(b, node) + out_neighbors(a, node) =~= out_neighbors(a, node));
    } else {
        assert((a + b).drop_last() =~= a + b.drop_last());
        assert((a + b).last() == b.last());
        lemma_out_neighbors_add(a, b.drop_last(), node);
        if b.last().0 == node {
            assert(seq![b.last().1] + (out_neighbors(b.drop_last(), node) + out_neighbors(a, node))
                =~= (seq![b.last().1] + out_neighbors(b.drop_last(), node)) + out_neighbors(
                a,
                node,
            ));
        }
    }
}

/// The target of each edge is a neighbor of its source.
pub proof fn lemma_out_neighbors_has(edges: Seq<(int, int)>, e: int)
    requires
        0 <= e < edges.len(),
    ensures
        exists|i: int|
            0 <= i < out_neighbors(edges, edges[e].0).len() && #[trigger] out_neighbors(
                edges,
                edges[e].0,
            )[i] == edges[e].1,
    decreases edges.len(),
{
    let node = edges[e].0;
    let rest = edges.drop_last();
    if e == edges.len() - 1 {
        assert(out_neighbors(edges, node)[0] == edges[e].1);
    } else {
        assert(rest[e] == edges[e]);
        lemma_out_neighbors_has(rest, e);
        let i = choose|i: int|
            0 <= i < out_neighbors(rest, node).len() && #[trigger] out_neighbors(rest, node)[i]
                == edges[e].1;
        if edges.last().0 == node {
            assert(out_neighbors(edges, node)[i + 1] == edges[e].1);
        } else {
            assert(out_neighbors(edges, node)[i] == edges[e].1);
        }
    }
}

/// The first trees of a forest have no more nodes than more of its first trees.
pub proof fn lemma_size_take_grows<T>(forest: Seq<NodeWithChildren<T>>, a: int, b: int)
    requires
        0 <= a <= b <= forest.len(),
    ensures
        forest_size(forest.take(a)) <= forest_size(forest.take(b)),
    decreases b - a,
{
    if a < b {
        lemma_size_take_grows(forest, a, b - 1);
        lemma_size_take(forest, b - 1);
    }
}

/// Each neighbor of a node is the target of an edge from that node.
pub proof fn lemma_out_neighbors_edge(edges: Seq<(int, int)>, node: int, i: int)
    requires
        0 <= i < out_neighbors(edges, node).len(),
    ensures
        exists|e: int|
            0 <= e < edges.len() && #[trigger] edges[e] == (node, out_neighbors(edges, node)[i]),
    decreases edges.len(),
{
    if edges.len() > 0 {
        let rest = edges.drop_last();
        if edges.last().0 == node && i == 0 {
            assert(edges[edges.len() - 1] == (node, out_neighbors(edges, node)[i]));
        } else {
            let k = if edges.last().0 == node {
                i - 1
            } else {
                i
            };
            lemma_out_neighbors_edge(rest, node, k);
            let e = choose|e: int|
                0 <= e < rest.len() && #[trigger] rest[e] == (node, out_neighbors(rest, node)[k]);
            assert(edges[e] == rest[e]);
        }
    }
}

/// The neighbors of a node in the graph of a forest. A node of the forest has the roots of
/// its children, the last child first; the parent of the roots has the roots, the last root
/// first; any other node has none.
pub proof fn lemma_forest_neighbors<T>(
    forest: Seq<NodeWithChildren<T>>,
    up: Option<int>,
    base: int,
    node: int,
)
    requires
        up is Some ==> 0 <= up->0 < base,
        0 <= base,
    ensures
        up == Some(node) ==> out_neighbors(forest_edges(forest, up, base), node)
            == root_places_desc(forest, base),
        base <= node < base + forest_size(forest) ==> out_neighbors(
            forest_edges(forest, up, base),
            node,
        ) == root_places_desc(subtrees(forest)[node - base].children@, node + 1),
        up != Some(node) && !(base <= node < base + forest_size(forest)) ==> out_neighbors(
            forest_edges(forest, up, base),
            node,
        ) == Seq::<int>::empty(),
    decreases forest,
{
    if forest.len() == 0 {
        assert(root_places_desc(forest, base) =~= Seq::empty());
    } else {
        let kids = forest[0].children@;
        let rest = forest.drop_first();
        let cs = forest_size(kids) as int;
        let a = root_edge(up, base);
        let b = forest_edges(kids, Some(base), base + 1);
        let c = forest_edges(rest, up, base + 1 + cs);
        let all = forest_edges(forest, up, base);
        assert(all == (a + b) + c);
        lemma_out_neighbors_add(a + b, c, node);
        lemma_out_neighbors_add(a, b, node);
        lemma_forest_neighbors(kids, Some(base), base + 1, node);
        lemma_forest_neighbors(rest, up, base + 1 + cs, node);
        lemma_subtrees_len(kids);
        lemma_subtrees_len(rest);
        lemma_subtrees_len(forest);
        let na = out_neighbors(a, node);
        let nb = out_neighbors(b, node);
        let nc = out_neighbors(c, node);
        assert(out_neighbors(all, node) == nc + (nb + na));
        assert(na == if up == Some(node) {
            seq![base]
        } else {
            Seq::<int>::empty()
        }) by {
            if up is Some {
                assert(a.drop_last() =~= Seq::empty());
                assert(a.last() == (up->0, base));
                assert(out_neighbors(a.drop_last(), node) =~= Seq::empty());
                if up == Some(node) {
                    assert(out_neighbors(a, node) =~= seq![base]);
                }
            }
        }
        if up == Some(node) {
            assert(nb =~= Seq::empty());
            assert(nc == root_places_desc(rest, base + 1 + cs));
            let want = root_places_desc(forest, base);
            assert(nc + (nb + na) =~= want) by {
                assert forall|i: int| 0 <= i < forest.len() implies (nc + (nb + na))[i]
                    == want[i] by {
                    let m = forest.len() - 1 - i;
                    if m > 0 {
                        lemma_size_take(forest, m);
                        assert(nc[i] == base + 1 + cs + forest_size(rest.take(rest.len() - 1 - i)));
                    } else {
                        lemma_size_take(forest, 0);
                    }
                }
            }
        } else if node == base {
            assert(nc =~= Seq::empty());
            assert(nb == root_places_desc(kids, base + 1));
            assert(subtrees(forest)[0] == forest[0]);
            assert(nc + (nb + na) =~= nb);
        } else if base < node < base + 1 + cs {
            assert(nc =~= Seq::empty());
            assert(subtrees(forest)[node - base] == subtrees(kids)[node - base - 1]);
            assert(nc + (nb + na) =~= nb);
        } else if base + 1 + cs <= node < base + forest_size(forest) {
            assert(subtrees(forest)[node - base] == subtrees(rest)[node - base - 1 - cs]);
            assert(nb =~= Seq::empty());
            assert(nc + (nb + na) =~= nc);
        } else {
            assert(nc + (nb + na) =~= Seq::empty());
        }
    }
}

/// Where the roots of a forest stand among its subtrees: the root with the number `j` stands
/// behind the nodes of the trees before it, and its children follow it.
pub proof fn lemma_root_places<T>(forest: Seq<NodeWithChildren<T>>, j: int)
    requires
        0 <= j < forest.len(),
    ensures
        forest_size(forest.take(j)) + 1 + forest_size(forest[j].children@) <= forest_size(forest),
        subtrees(forest)[forest_size(forest.take(j)) as int] == forest[j],
        subtrees(forest).subrange(
            forest_size(forest.take(j)) as int + 1,
            forest_size(forest.take(j)) as int + 1 + forest_size(forest[j].children@),
        ) == subtrees(forest[j].children@),
    decreases forest,
{
    let kids = forest[0].children@;
    let rest = forest.drop_first();
    let cs = forest_size(kids) as int;
    lemma_subtrees_len(kids);
    lemma_subtrees_len(rest);
    lemma_subtrees_len(forest);
    lemma_size_take(forest, j);
    if j == 0 {
        assert(subtrees(forest).subrange(1, 1 + cs) =~= subtrees(kids));
    } else {
        lemma_root_places(rest, j - 1);
        assert(rest[j - 1] == forest[j]);
        let at = forest_size(rest.take(j - 1)) as int;
        let n = forest_size(forest[j].children@) as int;
        assert(subtrees(forest)[1 + cs + at] == subtrees(rest)[at]);
        assert(subtrees(forest).subrange(1 + cs + at + 1, 1 + cs + at + 1 + n) =~= subtrees(
            rest,
        ).subrange(at + 1, at + 1 + n));
    }
}

/// The subtree at a place of a forest is followed by the subtrees of its children.
pub proof fn lemma_subtree_children<T>(forest: Seq<NodeWithChildren<T>>, at: int)
    requires
        0 <= at < forest_size(forest),
    ensures
        at + 1 + forest_size(subtrees(forest)[at].children@) <= forest_size(forest),
        subtrees(forest).subrange(at + 1, at + 1 + forest_size(subtrees(forest)[at].children@))
            == subtrees(subtrees(forest)[at].children@),
    decreases forest,
{
    let kids = forest[0].children@;
    let rest = forest.drop_first();
    let cs = forest_size(kids) as int;
    lemma_subtrees_len(kids);
    lemma_subtrees_len(rest);
    lemma_subtrees_len(forest);
    let all = subtrees(forest);
    if at == 0 {
        assert(all[0] == forest[0]);
        assert(all.subrange(1, 1 + cs) =~= subtrees(kids));
    } else if at - 1 < cs {
        lemma_subtree_children(kids, at - 1);
        let s = subtrees(kids)[at - 1];
        assert(all[at] == s);
        let n = forest_size(s.children@) as int;
        assert(all.subrange(at + 1, at + 1 + n) =~= subtrees(kids).subrange(at, at + n));
    } else {
        lemma_subtree_children(rest, at - 1 - cs);
        let s = subtrees(rest)[at - 1 - cs];
        assert(all[at] == s);
        let n = forest_size(s.children@) as int;
        assert(all.subrange(at + 1, at + 1 + n) =~= subtrees(rest).subrange(
            at - cs,
            at - cs + n,
        ));
    }
}

/// The child with the number `j` of the node at the place `at` of a forest: it stands at the
/// place `at + 1` and the size of the children before it.
pub proof fn lemma_child_place<T>(forest: Seq<NodeWithChildren<T>>, at: int, j: int)
    requires
        0 <= at < forest_size(forest),
        0 <= j < subtrees(forest)[at].children@.len(),
    ensures
        at + 1 + forest_size(subtrees(forest)[at].children@.take(j)) < forest_size(forest),
        subtrees(forest)[at + 1 + forest_size(subtrees(forest)[at].children@.take(j))]
            == subtrees(forest)[at].children@[j],
        at + 1 + forest_size(subtrees(forest)[at].children@.take(j + 1)) <= at + 1 + forest_size(
            subtrees(forest)[at].children@,
        ),
        at + 1 + forest_size(subtrees(forest)[at].children@) <= forest_size(forest),
{
    let kids = subtrees(forest)[at].children@;
    lemma_subtree_children(forest, at);
    lemma_root_places(kids, j);
    lemma_subtrees_len(kids);
    lemma_subtrees_len(forest);
    lemma_size_take(kids, j);
    let p = forest_size(kids.take(j)) as int;
    let part = subtrees(forest).subrange(at + 1, at + 1 + forest_size(kids));
    assert(part[p] == subtrees(forest)[at + 1 + p]);
}

/// The children of a node in the graph of a tree. The graph gives the children of the node at
/// the place `at` the last child first; the child with the number `j` stands at the place
/// `at + 1` and the size of the children before it, and the edge that leads to a place has the
/// number of that place less one.
pub proof fn lemma_tree_children<T>(tree: NodeWithChildren<T>, at: int)
    requires
        0 <= at < forest_size(seq![tree]),
    ensures
        out_neighbors(tree_edges(tree), at).len() == tree_subtrees(tree)[at].children@.len(),
        forall|q: int|
            0 <= q < out_neighbors(tree_edges(tree), at).len() ==> {
                let place = #[trigger] out_neighbors(tree_edges(tree), at)[q];
                let kids = tree_subtrees(tree)[at].children@;
                &&& at < place < forest_size(seq![tree])
                &&& place == at + 1 + forest_size(kids.take(kids.len() - 1 - q))
                &&& tree_subtrees(tree)[place] == kids[kids.len() - 1 - q]
                &&& 0 <= place - 1 < tree_edges(tree).len()
                &&& tree_edges(tree)[place - 1] == (at, place)
            },
{
    let forest = seq![tree];
    let placed = subtrees(forest);
    let kids = placed[at].children@;
    let edges = tree_edges(tree);
    lemma_subtrees_len(forest);
    lemma_forest_neighbors(forest, None, 0, at);
    lemma_tree_edges(tree);
    let nbrs = out_neighbors(edges, at);
    assert forall|q: int| 0 <= q < nbrs.len() implies ({
        let place = #[trigger] nbrs[q];
        &&& at < place < forest_size(forest)
        &&& place == at + 1 + forest_size(kids.take(kids.len() - 1 - q))
        &&& placed[place] == kids[kids.len() - 1 - q]
        &&& 0 <= place - 1 < edges.len()
        &&& edges[place - 1] == (at, place)
    }) by {
        lemma_child_place(forest, at, kids.len() - 1 - q);
        lemma_out_neighbors_edge(edges, at, q);
    }
}

} // verus!
