//! The tree that is being hashed, and the tree of hashed nodes that comes of it.

use std::collections::HashMap;
use vstd::prelude::*;
use petgraph::graph::{Graph, NodeIndex};
use petgraph::Directed;
use crate::entry::{NodeEntry, NodeEntryView};
use crate::error::{GraphError, GraphErrorView};
use crate::graph::{
    graph_add_edge, graph_add_node, graph_children, graph_edges, graph_new, graph_node_count,
    graph_post_order, is_post_order, node_index, node_index_value, out_neighbors,
};
use crate::hash::blake3_digest;
use crate::layout::{
    forest_edges, forest_size, lemma_single, lemma_size_all, lemma_subtrees_len, root_edge,
    subtrees, tree_edges, tree_subtrees,
};
use crate::node::{node_bytes, HashedNode, Node, NodeWithChildren};
use crate::traits::{NameStr, ObjectKindStr, WriteBytes};

verus! {

/// The canonical bytes of the root of `tree`: they list the entries of its children.
pub open spec fn tree_bytes<T: NameStr + ObjectKindStr + WriteBytes>(
    tree: NodeWithChildren<T>,
) -> Seq<u8>
    decreases tree, 0nat,
{
    node_bytes(
        tree.kind,
        tree.inner.object_kind_spec(),
        tree.inner.bytes_spec(),
        child_entries(tree.children@),
    )
}

/// The hash of the root of `tree`, which covers the whole of `tree`: the digest of the
/// canonical bytes of the root.
pub open spec fn tree_hash<T: NameStr + ObjectKindStr + WriteBytes>(
    tree: NodeWithChildren<T>,
) -> Seq<u8>
    decreases tree, 1nat,
{
    blake3_digest(tree_bytes(tree))
}

/// The entry that a parent holds for the child `tree`.
pub open spec fn tree_entry<T: NameStr + ObjectKindStr + WriteBytes>(
    tree: NodeWithChildren<T>,
) -> NodeEntryView
    decreases tree, 2nat,
{
    NodeEntryView { kind: tree.kind, hash: tree_hash(tree), name: tree.inner.name_spec() }
}

/// The entries of the children `kids` in the order in which they are handed to the sort: the
/// last child first.
pub open spec fn child_entries<T: NameStr + ObjectKindStr + WriteBytes>(
    kids: Seq<NodeWithChildren<T>>,
) -> Seq<NodeEntryView>
    decreases kids, 3nat,
{
    if kids.len() == 0 {
        Seq::empty()
    } else {
        seq![tree_entry(kids.last())] + child_entries(kids.drop_last())
    }
}

/// The node at the root of `tree`.
pub open spec fn node_of<T>(tree: NodeWithChildren<T>) -> Node<T> {
    Node { kind: tree.kind, inner: tree.inner }
}

/// The place of a parent as a number.
pub open spec fn up_of(parent: Option<usize>) -> Option<int> {
    match parent {
        Some(p) => Some(p as int),
        None => None,
    }
}

/// The subtrees of the trees on a stack, in the order in which they will be placed: those of
/// the top first.
pub open spec fn stack_subtrees<T>(stack: Seq<(NodeWithChildren<T>, Option<usize>)>) -> Seq<
    NodeWithChildren<T>,
>
    decreases stack.len(),
{
    if stack.len() == 0 {
        Seq::empty()
    } else {
        subtrees(seq![stack.last().0]) + stack_subtrees(stack.drop_last())
    }
}

/// The edges of the trees on a stack, in the order in which they will be added, where the
/// next node gets the place `base`.
pub open spec fn stack_edges<T>(stack: Seq<(NodeWithChildren<T>, Option<usize>)>, base: int) -> Seq<
    (int, int),
>
    decreases stack.len(),
{
    if stack.len() == 0 {
        Seq::empty()
    } else {
        forest_edges(seq![stack.last().0], up_of(stack.last().1), base) + stack_edges(
            stack.drop_last(),
            base + forest_size(seq![stack.last().0]),
        )
    }
}

/// The trees `kids` as they stand on a stack, the first on top, each with the parent `up`.
pub open spec fn pushed<T>(kids: Seq<NodeWithChildren<T>>, up: Option<usize>) -> Seq<
    (NodeWithChildren<T>, Option<usize>),
> {
    Seq::new(kids.len(), |i: int| (kids[kids.len() - 1 - i], up))
}

/// Pushing the children of a node, the last first, has them placed like a forest before what
/// was on the stack.
proof fn lemma_pushed<T>(
    stack: Seq<(NodeWithChildren<T>, Option<usize>)>,
    kids: Seq<NodeWithChildren<T>>,
    up: Option<usize>,
    base: int,
)
    ensures
        stack_subtrees(stack + pushed(kids, up)) == subtrees(kids) + stack_subtrees(stack),
        stack_edges(stack + pushed(kids, up), base) == forest_edges(kids, up_of(up), base)
            + stack_edges(stack, base + forest_size(kids)),
    decreases kids.len(),
{
    if kids.len() == 0 {
        assert(stack + pushed(kids, up) =~= stack);
        assert(subtrees(kids) + stack_subtrees(stack) =~= stack_subtrees(stack));
        assert(forest_edges(kids, up_of(up), base) + stack_edges(stack, base + forest_size(kids))
            =~= stack_edges(stack, base));
    } else {
        let rest = kids.drop_first();
        let all = stack + pushed(kids, up);
        assert(all.last() == (kids[0], up));
        assert(all.drop_last() =~= stack + pushed(rest, up));
        lemma_single(kids[0], up_of(up), base);
        let n = forest_size(seq![kids[0]]) as int;
        lemma_pushed(stack, rest, up, base + n);
        assert(stack_subtrees(all) =~= subtrees(kids) + stack_subtrees(stack));
        assert(stack_edges(all, base) =~= forest_edges(kids, up_of(up), base) + stack_edges(
            stack,
            base + forest_size(kids),
        ));
    }
}

/// A tree that is laid out in a graph to be hashed: the nodes in pre-order, an edge from each
/// parent to each child, and the hashes that have been computed so far.
pub struct HashingTree<T> {
    nodes: Vec<Node<T>>,
    graph: Graph<(), (), Directed, usize>,
    root_idx: usize,
    hashes: HashMap<usize, crate::hash::Hash>,
    tree: Ghost<NodeWithChildren<T>>,
}

impl<T> HashingTree<T> {
    /// The tree that is laid out.
    pub closed spec fn tree(&self) -> NodeWithChildren<T> {
        self.tree@
    }

    /// The hashes that have been computed, by the place of their node.
    pub closed spec fn hashes(&self) -> Map<usize, crate::hash::Hash> {
        self.hashes@
    }

    /// The nodes, by their place.
    pub closed spec fn nodes_spec(&self) -> Seq<Node<T>> {
        self.nodes@
    }

    /// The edges of the graph, each from the place of a parent to the place of a child, in
    /// the order in which they were added.
    pub closed spec fn edges_spec(&self) -> Seq<(int, int)> {
        graph_edges(self.graph)
    }

    /// The place of the root.
    pub closed spec fn root_spec(&self) -> int {
        self.root_idx as int
    }

    /// The nodes are those of `tree` in pre-order, each node before its children and each
    /// child before its younger siblings; an edge leads from each parent to each child, the
    /// edges in the order of the places of the children; the root stands first.
    pub open spec fn lays_out(&self, tree: NodeWithChildren<T>) -> bool {
        &&& self.nodes_spec().len() == tree_subtrees(tree).len()
        &&& forall|k: int|
            0 <= k < tree_subtrees(tree).len() ==> #[trigger] self.nodes_spec()[k] == node_of(
                tree_subtrees(tree)[k],
            )
        &&& self.edges_spec() == tree_edges(tree)
        &&& self.root_spec() == 0
    }

    /// A tree that is laid out lays out the tree that it holds.
    pub proof fn lemma_wf(&self)
        requires
            self.wf(),
        ensures
            self.lays_out(self.tree()),
    {
    }

    /// The graph holds the tree: its nodes in pre-order, the root first, and its edges.
    pub closed spec fn wf(&self) -> bool {
        let placed = tree_subtrees(self.tree@);
        &&& self.nodes@.len() == placed.len()
        &&& forall|k: int| 0 <= k < placed.len() ==> self.nodes@[k] == node_of(#[trigger] placed[k])
        &&& graph_node_count(self.graph) == placed.len()
        &&& graph_edges(self.graph) == tree_edges(self.tree@)
        &&& self.root_idx == 0
    }

    /// Lays out the trees `roots`, of which there must be one.
    ///
    /// Fails with `MissingRootNode` where `roots` is empty, and with `MultipleRootNode` where
    /// it holds more than one tree.
    pub fn create_from_roots(roots: Vec<NodeWithChildren<T>>) -> (r: Result<
        HashingTree<T>,
        GraphError,
    >)
        ensures
            roots@.len() == 0 ==> r is Err && r->Err_0@ == GraphErrorView::MissingRootNode,
            roots@.len() >= 2 ==> r is Err && r->Err_0@ == GraphErrorView::MultipleRootNode,
            roots@.len() == 1 ==> {
                &&& r is Ok
                &&& r->Ok_0.wf()
                &&& r->Ok_0.tree() == roots@[0]
                &&& r->Ok_0.lays_out(roots@[0])
                &&& r->Ok_0.hashes() == Map::<usize, crate::hash::Hash>::empty()
            },
    {
        let ghost forest = roots@;
        let ghost all_subtrees = subtrees(forest);
        let ghost all_edges = forest_edges(forest, None, 0);
        let mut graph = graph_new();
        let mut nodes: Vec<Node<T>> = Vec::new();
        let mut root_idx: Option<usize> = None;
        let hashes: HashMap<usize, crate::hash::Hash> = HashMap::new();

        let mut stack: Vec<(NodeWithChildren<T>, Option<usize>)> = Vec::new();
        let mut waiting = roots;
        assert(waiting@ =~= forest.take(waiting@.len() as int));
        assert(stack@ =~= pushed(forest.skip(waiting@.len() as int), None));
        while waiting.len() > 0
            invariant
                forest == roots@,
                waiting@ == forest.take(waiting@.len() as int),
                waiting@.len() <= forest.len(),
                stack@ == pushed(forest.skip(waiting@.len() as int), None),
            decreases waiting@.len(),
        {
            let root = waiting.pop().unwrap();
            stack.push((root, None));
            proof {
                let n = waiting@.len() as int;
                assert(waiting@ =~= forest.take(n));
                assert(root == forest[n]);
                assert(stack@ =~= pushed(forest.skip(n), None));
            }
        }
        let ghost done: Seq<NodeWithChildren<T>> = Seq::empty();
        let ghost placed_roots: int = 0;
        proof {
            assert(forest.skip(0) =~= forest);
            lemma_pushed(Seq::empty(), forest, None, 0);
            assert(Seq::<(NodeWithChildren<T>, Option<usize>)>::empty() + pushed(forest, None)
                =~= stack@);
            assert(done + stack_subtrees(stack@) =~= all_subtrees);
            assert(graph_edges(graph) + stack_edges(stack@, 0) =~= all_edges);
            lemma_subtrees_len(forest);
        }

        while stack.len() > 0
            invariant
                forest == roots@,
                hashes@ == Map::<usize, crate::hash::Hash>::empty(),
                all_subtrees == subtrees(forest),
                all_edges == forest_edges(forest, None, 0),
                all_subtrees.len() == forest_size(forest),
                graph_edges(graph).len() <= done.len(),
                graph_node_count(graph) == nodes@.len() == done.len(),
                forall|k: int| 0 <= k < done.len() ==> nodes@[k] == node_of(#[trigger] done[k]),
                done + stack_subtrees(stack@) == all_subtrees,
                graph_edges(graph) + stack_edges(stack@, done.len() as int) == all_edges,
                0 <= placed_roots <= 1,
                placed_roots <= forest.len(),
                placed_roots == 0 <==> root_idx is None,
                root_idx is Some ==> root_idx->0 == 0,
                placed_roots == 0 <==> done.len() == 0,
                forest.len() - placed_roots <= stack@.len(),
                forall|i: int|
                    0 <= i < forest.len() - placed_roots ==> (#[trigger] stack@[i]).1 is None,
                forall|i: int|
                    forest.len() - placed_roots <= i < stack@.len() ==> (#[trigger] stack@[i]).1
                        is Some && stack@[i].1->0 < done.len(),
            decreases all_subtrees.len() - done.len(),
        {
            let ghost old_stack = stack@;
            let ghost old_edges = graph_edges(graph);
            let ghost base = done.len() as int;
            let (node_with_children, parent_idx) = stack.pop().unwrap();
            let ghost tree = node_with_children;
            let ghost rest = stack@;
            let (node, children) = node_with_children.into_parts();
            proof {
                assert(old_stack.last() == (tree, parent_idx));
                assert(old_stack.drop_last() =~= rest);
                lemma_single(tree, up_of(parent_idx), base);
                lemma_subtrees_len(tree.children@);
                assert(stack_subtrees(old_stack).len() > 0);
            }

            nodes.push(node);
            // The graph has room for the node, as the list of the nodes had.
            let placed_count = nodes.len();
            assert(graph_node_count(graph) < placed_count);
            let node_idx = graph_add_node(&mut graph);

            match parent_idx {
                Some(parent_idx) => {
                    proof {
                        assert(stack_edges(old_stack, base).len() > 0);
                    }
                    graph_add_edge(&mut graph, parent_idx, node_idx);
                },
                None => match root_idx {
                    None => {
                        root_idx = Some(node_idx);
                        proof {
                            placed_roots = 1;
                        }
                    },
                    Some(_) => {
                        return Err(GraphError::MultipleRootNode);
                    },
                },
            };
            proof {
                done = done.push(tree);
                assert(graph_edges(graph) =~= old_edges + root_edge(up_of(parent_idx), base));
            }

            let ghost kids = children@;
            let mut children = children;
            while children.len() > 0
                invariant
                    children@ == kids.take(children@.len() as int),
                    children@.len() <= kids.len(),
                    stack@ == rest + pushed(kids.skip(children@.len() as int), Some(node_idx)),
                decreases children@.len(),
            {
                let child = children.pop().unwrap();
                stack.push((child, Some(node_idx)));
                proof {
                    let n = children@.len() as int;
                    assert(children@ =~= kids.take(n));
                    assert(child == kids[n]);
                    assert(stack@ =~= rest + pushed(kids.skip(n), Some(node_idx)));
                }
            }
            proof {
                assert(kids.skip(0) =~= kids);
                lemma_pushed(rest, kids, Some(node_idx), base + 1);
                assert(done + stack_subtrees(stack@) =~= all_subtrees);
                assert(graph_edges(graph) + stack_edges(stack@, done.len() as int) =~= all_edges);
            }
        }

        match root_idx {
            Some(root_idx) => {
                proof {
                    assert(forest =~= seq![forest[0]]);
                    assert(done =~= all_subtrees);
                    assert(graph_edges(graph) =~= all_edges);
                }
                let laid_out = HashingTree { nodes, graph, root_idx, hashes, tree: Ghost(forest[0]) };
                proof {
                    laid_out.lemma_wf();
                }
                Ok(laid_out)
            },
            None => Err(GraphError::MissingRootNode),
        }
    }

    /// Lays out the tree `node`.
    pub fn create_from_root(node: NodeWithChildren<T>) -> (r: Result<HashingTree<T>, GraphError>)
        ensures
            r is Ok,
            r->Ok_0.wf(),
            r->Ok_0.tree() == node,
            r->Ok_0.lays_out(node),
            r->Ok_0.hashes() == Map::<usize, crate::hash::Hash>::empty(),
    {
        let mut roots: Vec<NodeWithChildren<T>> = Vec::new();
        roots.push(node);
        assert(roots@ =~= seq![node]);
        HashingTree::create_from_roots(roots)
    }
}

/// The entries of children, as a sequence: the last child first.
pub proof fn lemma_child_entries<T: NameStr + ObjectKindStr + WriteBytes>(
    kids: Seq<NodeWithChildren<T>>,
)
    ensures
        child_entries(kids) == Seq::new(
            kids.len(),
            |q: int| tree_entry(kids[kids.len() - 1 - q]),
        ),
    decreases kids.len(),
{
    let want = Seq::new(kids.len(), |q: int| tree_entry(kids[kids.len() - 1 - q]));
    if kids.len() == 0 {
        assert(child_entries(kids) =~= want);
    } else {
        let rest = kids.drop_last();
        lemma_child_entries(rest);
        assert(child_entries(kids) =~= want) by {
            assert forall|q: int| 0 <= q < kids.len() implies child_entries(kids)[q]
                == want[q] by {
                if q > 0 {
                    assert(rest[rest.len() - 1 - (q - 1)] == kids[kids.len() - 1 - q]);
                }
            }
        }
    }
}

/// In a tree, a walk in post-order from the root comes to every node.
proof fn lemma_order_complete(count: nat, edges: Seq<(int, int)>, order: Seq<usize>, node: int)
    requires
        is_post_order(count, edges, 0, order),
        edges.len() == count - 1,
        forall|e: int|
            0 <= e < edges.len() ==> (#[trigger] edges[e]).1 == e + 1 && 0 <= edges[e].0 <= e,
        0 <= node < count,
    ensures
        exists|i: int| 0 <= i < order.len() && order[i] == node,
    decreases node,
{
    if node > 0 {
        let e = node - 1;
        let parent = edges[e].0;
        lemma_order_complete(count, edges, order, parent);
        let i = choose|i: int| 0 <= i < order.len() && order[i] == parent;
        assert(edges[e].0 == order[i]);
        let j = choose|j: int| 0 <= j < i && order[j] == edges[e].1;
        assert(order[j] == node);
    }
}

/// Returns the hash that stands under `idx`, if one does.
fn hash_at(hashes: &HashMap<usize, crate::hash::Hash>, idx: usize) -> (hash: Option<
    crate::hash::Hash,
>)
    ensures
        match hash {
            Some(h) => hashes@.contains_key(idx) && hashes@[idx] == h,
            None => !hashes@.contains_key(idx),
        },
{
    broadcast use vstd::std_specs::hash::group_hash_axioms;

    match hashes.get(&idx) {
        Some(h) => Some(*h),
        None => None,
    }
}

impl<T: NameStr + WriteBytes + ObjectKindStr> HashingTree<T> {
    /// Each hash that has been computed is the hash of the subtree at its place.
    pub closed spec fn hashes_hold(&self) -> bool {
        forall|k: usize| #[trigger]
            self.hashes@.contains_key(k) ==> k < tree_subtrees(self.tree@).len()
                && self.hashes@[k]@ == tree_hash(tree_subtrees(self.tree@)[k as int])
    }

    /// Every node has its hash.
    pub closed spec fn fully_hashed(&self) -> bool {
        forall|k: usize|
            k < tree_subtrees(self.tree@).len() ==> #[trigger] self.hashes@.contains_key(k)
    }

    /// What `hashes_hold` and `fully_hashed` say, over the hashes and the tree.
    pub proof fn lemma_hashes(&self)
        ensures
            self.hashes_hold() <==> forall|k: usize| #[trigger]
                self.hashes().contains_key(k) ==> k < tree_subtrees(self.tree()).len()
                    && self.hashes()[k]@ == tree_hash(tree_subtrees(self.tree())[k as int]),
            self.fully_hashed() <==> forall|k: usize|
                k < tree_subtrees(self.tree()).len() ==> #[trigger] self.hashes().contains_key(k),
    {
        assert(self.hashes() == self.hashes@);
        assert(self.tree() == self.tree@);
        if self.hashes_hold() {
            assert forall|k: usize| #[trigger] self.hashes().contains_key(k) implies k
                < tree_subtrees(self.tree()).len() && self.hashes()[k]@ == tree_hash(
                tree_subtrees(self.tree())[k as int],
            ) by {
                assert(self.hashes@.contains_key(k));
            }
        }
        if self.fully_hashed() {
            assert forall|k: usize| k < tree_subtrees(self.tree()).len() implies #[trigger] self.hashes().contains_key(
                k,
            ) by {
                assert(self.hashes@.contains_key(k));
            }
        }
    }

    /// The places of the children of the node at `at`, in the order in which the graph gives
    /// them.
    pub closed spec fn children_places(&self, at: int) -> Seq<int> {
        out_neighbors(graph_edges(self.graph), at)
    }

    /// The places that the graph gives for the children of the node at `at`: those of its
    /// children, the last child first.
    proof fn lemma_children(&self, at: int)
        requires
            self.wf(),
            0 <= at < self.nodes@.len(),
        ensures
            self.children_places(at).len() == tree_subtrees(self.tree@)[at].children@.len(),
            forall|q: int|
                0 <= q < self.children_places(at).len() ==> {
                    let place = #[trigger] self.children_places(at)[q];
                    let kids = tree_subtrees(self.tree@)[at].children@;
                    &&& at < place < self.nodes@.len()
                    &&& place == at + 1 + forest_size(kids.take(kids.len() - 1 - q))
                    &&& tree_subtrees(self.tree@)[place] == kids[kids.len() - 1 - q]
                    &&& 0 <= place - 1 < graph_edges(self.graph).len()
                    &&& graph_edges(self.graph)[place - 1] == (at, place)
                },
    {
        lemma_subtrees_len(seq![self.tree@]);
        crate::layout::lemma_tree_children(self.tree@, at);
    }

    /// Returns the entries of the children of the node at `node_idx`, in the order in which
    /// the graph gives the children.
    ///
    /// Fails with `UnhashedChild` for the first of them that has no hash.
    fn child_entries_at(&self, node_idx: usize) -> (r: Result<Vec<NodeEntry>, GraphError>)
        requires
            self.wf(),
            self.hashes_hold(),
            node_idx < self.nodes@.len(),
        ensures
            r is Ok <==> forall|q: int|
                0 <= q < self.children_places(node_idx as int).len()
                    ==> self.hashes@.contains_key(
                    #[trigger] self.children_places(node_idx as int)[q] as usize,
                ),
            match r {
                Ok(entries) => crate::entry::entry_views(entries@) == child_entries(
                    tree_subtrees(self.tree@)[node_idx as int].children@,
                ),
                Err(e) => exists|q: int|
                    {
                        &&& 0 <= q < self.children_places(node_idx as int).len()
                        &&& !self.hashes@.contains_key(
                            #[trigger] self.children_places(node_idx as int)[q] as usize,
                        )
                        &&& forall|p: int|
                            0 <= p < q ==> self.hashes@.contains_key(
                                #[trigger] self.children_places(node_idx as int)[p] as usize,
                            )
                        &&& e@ == GraphErrorView::UnhashedChild(
                            self.nodes@[node_idx as int].inner.name_spec(),
                            self.nodes@[self.children_places(node_idx as int)[q]].inner.name_spec(),
                        )
                    },
            },
    {
        let ghost placed = tree_subtrees(self.tree@);
        let ghost kids = placed[node_idx as int].children@;
        let ghost nbrs = self.children_places(node_idx as int);
        let node = &self.nodes[node_idx];
        let children = graph_children(&self.graph, node_idx);
        proof {
            self.lemma_children(node_idx as int);
            lemma_child_entries(kids);
            assert(children@.len() == nbrs.len());
        }
        let mut entries: Vec<NodeEntry> = Vec::new();
        let mut j: usize = 0;
        while j < children.len()
            invariant
                0 <= j <= children@.len(),
                self.wf(),
                self.hashes_hold(),
                node_idx < self.nodes@.len(),
                *node == self.nodes@[node_idx as int],
                placed == tree_subtrees(self.tree@),
                kids == placed[node_idx as int].children@,
                nbrs == self.children_places(node_idx as int),
                children@.map_values(|c: usize| c as int) == nbrs,
                nbrs.len() == kids.len(),
                forall|q: int|
                    0 <= q < nbrs.len() ==> {
                        let place = #[trigger] nbrs[q];
                        &&& 0 <= place < self.nodes@.len()
                        &&& placed[place] == kids[kids.len() - 1 - q]
                    },
                entries@.len() == j,
                forall|q: int|
                    0 <= q < j ==> (#[trigger] entries@[q])@ == tree_entry(
                        kids[kids.len() - 1 - q],
                    ),
                forall|p: int| 0 <= p < j ==> self.hashes@.contains_key(#[trigger] nbrs[p] as usize),
            decreases children@.len() - j,
        {
            let child_idx = children[j];
            assert(child_idx as int == nbrs[j as int]) by {
                assert(children@.map_values(|c: usize| c as int)[j as int] == children@[j as int]
                    as int);
            }
            let child_node = &self.nodes[child_idx];
            let child_hash = match hash_at(&self.hashes, child_idx) {
                Some(hash) => hash,
                None => {
                    assert(self.children_places(node_idx as int)[j as int] as usize == child_idx);
                    return Err(
                        GraphError::UnhashedChild(
                            node.inner.name().to_owned(),
                            child_node.inner.name().to_owned(),
                        ),
                    );
                },
            };
            assert(self.nodes@[child_idx as int] == node_of(placed[child_idx as int]));
            entries.push(NodeEntry::new(child_node.kind, child_hash, child_node.inner.name()));
            j += 1;
        }
        assert(crate::entry::entry_views(entries@) =~= child_entries(kids));
        assert forall|q: int| 0 <= q < self.children_places(node_idx as int).len() implies 
            self.hashes@.contains_key(#[trigger] self.children_places(node_idx as int)[q] as usize) by {
            assert(self.hashes@.contains_key(nbrs[q] as usize));
        }
        Ok(entries)
    }

    /// Computes the hash of every node, each after the hashes of its children.
    pub fn compute_hashes(&mut self) -> (r: Result<(), GraphError>)
        requires
            old(self).wf(),
            old(self).hashes_hold(),
        ensures
            r is Ok,
            final(self).wf(),
            final(self).tree() == old(self).tree(),
            final(self).nodes_spec() == old(self).nodes_spec(),
            final(self).edges_spec() == old(self).edges_spec(),
            final(self).root_spec() == old(self).root_spec(),
            final(self).hashes_hold(),
            final(self).fully_hashed(),
    {
        let ghost placed = tree_subtrees(self.tree@);
        let ghost edges = graph_edges(self.graph);
        proof {
            lemma_single(self.tree@, None, 0);
            lemma_subtrees_len(seq![self.tree@]);
            crate::layout::lemma_tree_edges(self.tree@);
        }
        let order = graph_post_order(&self.graph, self.root_idx);

        let mut i: usize = 0;
        while i < order.len()
            invariant
                0 <= i <= order@.len(),
                self.wf(),
                self.hashes_hold(),
                self.tree@ == old(self).tree@,
                self.nodes@ == old(self).nodes@,
                self.root_idx == old(self).root_idx,
                placed == tree_subtrees(self.tree@),
                edges == graph_edges(self.graph),
                is_post_order(graph_node_count(self.graph), edges, 0, order@),
                forall|p: int| 0 <= p < i ==> self.hashes@.contains_key(#[trigger] order@[p]),
            decreases order@.len() - i,
        {
            let node_idx = order[i];
            assert(node_idx < self.nodes@.len());
            proof {
                // In post-order every child has been visited before its parent.
                self.lemma_children(node_idx as int);
                assert forall|q: int|
                    0 <= q < self.children_places(node_idx as int).len() implies self.hashes@.contains_key(
                    #[trigger] self.children_places(node_idx as int)[q] as usize,
                ) by {
                    let place = self.children_places(node_idx as int)[q];
                    assert(edges[place - 1].0 == order@[i as int]);
                    let p = choose|p: int| 0 <= p < i && order@[p] == edges[place - 1].1;
                    assert(self.hashes@.contains_key(order@[p]));
                }
            }
            let entries = match self.child_entries_at(node_idx) {
                Ok(entries) => entries,
                Err(e) => {
                    return Err(e);
                },
            };

            // Serialize the node and hash its bytes.
            let node = &self.nodes[node_idx];
            let mut writer: Vec<u8> = Vec::new();
            crate::node::NodeWithEntriesRef::new(node.kind, &node.inner, entries.as_slice()).write_bytes(
                &mut writer,
            );
            let computed_hash = crate::hash::Hash::new(writer.as_slice());
            proof {
                assert(self.nodes@[node_idx as int] == node_of(placed[node_idx as int]));
                assert(writer@ =~= tree_bytes(placed[node_idx as int]));
            }

            self.hashes.insert(node_idx, computed_hash);
            i += 1;
        }
        proof {
            assert forall|k: usize| k < placed.len() implies #[trigger] self.hashes@.contains_key(
                k,
            ) by {
                lemma_order_complete(graph_node_count(self.graph), edges, order@, k as int);
                let p = choose|p: int| 0 <= p < order@.len() && order@[p] == k as int;
                assert(self.hashes@.contains_key(order@[p]));
            }
        }
        Ok(())
    }
}

/// A node of the tree that is being hashed which waits to be put into the tree of hashed
/// nodes: its hash, its place, and the place of its parent in the new tree.
struct StackEntry {
    hash: crate::hash::Hash,
    other_idx: usize,
    parent_idx: Option<usize>,
}

/// The nodes on the stack are the next to be placed, the top first: the top is the node at
/// the place `next`, below it stands the node that follows the subtree of the top, and so on
/// to the last node. Each has its hash, and its parent is the source of the edge that leads
/// to it.
spec fn chain<T>(
    stack: Seq<StackEntry>,
    next: int,
    placed: Seq<NodeWithChildren<T>>,
    edges: Seq<(int, int)>,
    hashes: Map<usize, crate::hash::Hash>,
) -> bool
    decreases stack.len(),
{
    if stack.len() == 0 {
        next == placed.len()
    } else {
        let top = stack.last();
        &&& 0 <= next < placed.len()
        &&& top.other_idx == next
        &&& next == 0 ==> top.parent_idx is None
        &&& next > 0 ==> top.parent_idx is Some && top.parent_idx->0 == edges[next - 1].0
        &&& hashes.contains_key(top.other_idx)
        &&& hashes[top.other_idx] == top.hash
        &&& chain(
            stack.drop_last(),
            next + 1 + forest_size(placed[next].children@),
            placed,
            edges,
            hashes,
        )
    }
}

/// Pushing the children of the node at `at`, the last first, makes the first child the next
/// node to be placed.
proof fn lemma_chain_pushed<T>(
    rest: Seq<StackEntry>,
    pushed: Seq<StackEntry>,
    at: int,
    placed: Seq<NodeWithChildren<T>>,
    edges: Seq<(int, int)>,
    hashes: Map<usize, crate::hash::Hash>,
    m: int,
)
    requires
        0 <= at < placed.len(),
        0 <= m <= pushed.len(),
        pushed.len() == placed[at].children@.len(),
        chain(rest, at + 1 + forest_size(placed[at].children@), placed, edges, hashes),
        forall|q: int|
            0 <= q < pushed.len() ==> {
                let kids = placed[at].children@;
                let place = (#[trigger] pushed[q]).other_idx as int;
                &&& place == at + 1 + forest_size(kids.take(kids.len() - 1 - q))
                &&& place < placed.len()
                &&& placed[place] == kids[kids.len() - 1 - q]
                &&& pushed[q].parent_idx == Some(at as usize)
                &&& edges[place - 1].0 == at
                &&& hashes.contains_key(pushed[q].other_idx)
                &&& hashes[pushed[q].other_idx] == pushed[q].hash
            },
    ensures
        chain(
            rest + pushed.take(m),
            at + 1 + forest_size(placed[at].children@.take(pushed.len() - m)),
            placed,
            edges,
            hashes,
        ),
    decreases m,
{
    let kids = placed[at].children@;
    if m == 0 {
        assert(rest + pushed.take(0) =~= rest);
        lemma_size_all(kids);
    } else {
        let stack = rest + pushed.take(m);
        assert(stack.last() == pushed[m - 1]);
        assert(stack.drop_last() =~= rest + pushed.take(m - 1));
        lemma_chain_pushed(rest, pushed, at, placed, edges, hashes, m - 1);
        crate::layout::lemma_size_take(kids, kids.len() - m);
    }
}

/// The node at the place `p` is looked at before the node at the place `q`, or is that node,
/// when the tree of hashed nodes is built: the root is looked at first, then the children of
/// each node in the order of the places of their parents, the children of one parent the last
/// child first.
pub open spec fn looked_at_first(edges: Seq<(int, int)>, p: int, q: int) -> bool {
    ||| p == 0
    ||| q != 0 && edges[p - 1].0 < edges[q - 1].0
    ||| q != 0 && edges[p - 1].0 == edges[q - 1].0 && p >= q
}

/// A tree of hashed nodes.
///
/// The tree is a Merkle tree: the hash of a node is taken over its canonical bytes, which
/// hold the hashes of its children. The nodes stand in pre-order, the root first; the graph
/// holds an edge from each parent to each child.
pub struct ObjectTree<T> {
    nodes: Vec<HashedNode<T>>,
    graph: Graph<(), (), Directed, usize>,
    root_idx: usize,
    tree: Ghost<NodeWithChildren<T>>,
}

impl<T> ObjectTree<T> {
    /// The hashed nodes, by their place.
    pub closed spec fn nodes_spec(&self) -> Seq<HashedNode<T>> {
        self.nodes@
    }

    /// The edges of the tree, each from the place of a parent to the place of a child.
    pub closed spec fn edges_spec(&self) -> Seq<(int, int)> {
        graph_edges(self.graph)
    }

    /// The place of the root.
    pub closed spec fn root_spec(&self) -> int {
        self.root_idx as int
    }

    /// The tree that was hashed.
    pub closed spec fn source(&self) -> NodeWithChildren<T> {
        self.tree@
    }
}

impl<T: NameStr + WriteBytes + ObjectKindStr> ObjectTree<T> {
    /// The tree holds the nodes of `tree` in pre-order, each with the hash of its subtree,
    /// and the edges of `tree`; the root stands first.
    pub open spec fn is_hashed_form_of(&self, tree: NodeWithChildren<T>) -> bool {
        &&& self.nodes_spec().len() == tree_subtrees(tree).len()
        &&& forall|k: int|
            0 <= k < tree_subtrees(tree).len() ==> {
                let node = #[trigger] self.nodes_spec()[k];
                &&& node.kind_spec() == tree_subtrees(tree)[k].kind
                &&& node.inner_spec() == tree_subtrees(tree)[k].inner
                &&& node.hash_bytes() == tree_hash(tree_subtrees(tree)[k])
            }
        &&& self.edges_spec() == tree_edges(tree)
        &&& self.root_spec() == 0
    }

    /// The tree is the hashed form of the tree that it was made from.
    pub closed spec fn wf(&self) -> bool {
        &&& self.is_hashed_form_of(self.tree@)
        &&& graph_node_count(self.graph) == self.nodes@.len()
    }

    /// Creates the tree of hashed nodes from the tree `node`.
    pub fn create_from_root(node: NodeWithChildren<T>) -> (r: Result<Self, GraphError>)
        ensures
            r is Ok,
            r->Ok_0.wf(),
            r->Ok_0.source() == node,
            r->Ok_0.is_hashed_form_of(node),
    {
        HashingTree::create_from_root(node)?.hash_tree()
    }

    /// Returns the graph of the tree and the index of its root. The graph holds the shape of
    /// the tree; the node with the number `k` of the graph is `node(k)`.
    pub fn as_petgraph(&self) -> (r: (&Graph<(), (), Directed, usize>, NodeIndex<usize>))
        requires
            self.wf(),
        ensures
            graph_node_count(*r.0) == self.nodes_spec().len(),
            graph_edges(*r.0) == self.edges_spec(),
            node_index_value(r.1) == self.root_spec(),
    {
        (&self.graph, node_index(self.root_idx))
    }

    /// Returns the number of nodes.
    pub fn node_count(&self) -> (count: usize)
        ensures
            count == self.nodes_spec().len(),
    {
        self.nodes.len()
    }

    /// Returns the place of the root.
    pub fn root_index(&self) -> (root: usize)
        ensures
            root == self.root_spec(),
    {
        self.root_idx
    }

    /// Returns the node at the place `idx`, if the tree has that many nodes.
    pub fn node(&self, idx: usize) -> (node: Option<&HashedNode<T>>)
        ensures
            idx < self.nodes_spec().len() ==> node == Some(&self.nodes_spec()[idx as int]),
            idx >= self.nodes_spec().len() ==> node is None,
    {
        if idx < self.nodes.len() {
            Some(&self.nodes[idx])
        } else {
            None
        }
    }

    /// Returns the hash of the root, which covers the whole tree.
    pub fn root_hash(&self) -> (hash: crate::hash::Hash)
        requires
            self.wf(),
        ensures
            hash@ == tree_hash(self.source()),
    {
        proof {
            lemma_single(self.tree@, None, 0);
            lemma_subtrees_len(seq![self.tree@]);
            assert(tree_subtrees(self.tree@)[0] == self.tree@);
            assert(self.nodes_spec()[0].hash_bytes() == tree_hash(tree_subtrees(self.tree@)[0]));
        }
        self.nodes[self.root_idx].hash()
    }

    /// Returns the places of the children of the node at the place `idx`, the last child
    /// first.
    pub fn children(&self, idx: usize) -> (children: Vec<usize>)
        ensures
            children@.map_values(|c: usize| c as int) == out_neighbors(
                self.edges_spec(),
                idx as int,
            ),
    {
        graph_children(&self.graph, idx)
    }

    /// Returns the canonical bytes of the node at the place `idx`, if the tree has that many
    /// nodes.
    pub fn node_to_bytes(&self, idx: usize) -> (bytes: Option<Vec<u8>>)
        requires
            self.wf(),
        ensures
            idx < self.nodes_spec().len() ==> bytes is Some && bytes->0@ == tree_bytes(
                tree_subtrees(self.source())[idx as int],
            ),
            idx >= self.nodes_spec().len() ==> bytes is None,
    {
        if idx >= self.nodes.len() {
            return None;
        }
        let entries = self.entries(idx);
        let node = &self.nodes[idx];
        let mut writer: Vec<u8> = Vec::new();
        crate::node::write_node_bytes(&mut writer, node.kind(), node.inner(), entries.as_slice());
        proof {
            let placed = tree_subtrees(self.tree@);
            assert(self.nodes_spec()[idx as int].kind_spec() == placed[idx as int].kind);
            assert(writer@ =~= tree_bytes(placed[idx as int]));
        }
        Some(writer)
    }

    /// Computes the hash of every node again from its canonical bytes and compares it with
    /// the hash that the node holds. Every node of a tree of hashed nodes holds the hash of
    /// its canonical bytes, so this succeeds.
    pub fn verify(&self) -> (r: Result<(), GraphError>)
        requires
            self.wf(),
        ensures
            r is Ok,
    {
        let mut idx: usize = 0;
        while idx < self.nodes.len()
            invariant
                self.wf(),
                0 <= idx <= self.nodes@.len(),
            decreases self.nodes@.len() - idx,
        {
            let stored = self.nodes[idx].hash();
            match self.node_to_bytes(idx) {
                Some(bytes) => {
                    let computed = crate::hash::Hash::new(bytes.as_slice());
                    proof {
                        let placed = tree_subtrees(self.tree@);
                        assert(self.nodes_spec()[idx as int].hash_bytes() == tree_hash(
                            placed[idx as int],
                        ));
                    }
                    if !stored.same_as(&computed) {
                        return Err(GraphError::Verify(stored, computed));
                    }
                },
                None => {},
            }
            idx += 1;
        }
        Ok(())
    }

    /// Returns the entries of the children of the node at the place `idx`, as they enter its
    /// canonical bytes; none where the tree has no such node.
    pub fn entries(&self, idx: usize) -> (entries: Vec<NodeEntry>)
        requires
            self.wf(),
        ensures
            idx < self.nodes_spec().len() ==> crate::entry::entry_views(entries@) == child_entries(
                tree_subtrees(self.source())[idx as int].children@,
            ),
            idx >= self.nodes_spec().len() ==> entries@.len() == 0,
    {
        let mut entries: Vec<NodeEntry> = Vec::new();
        if idx >= self.nodes.len() {
            return entries;
        }
        let ghost placed = tree_subtrees(self.tree@);
        let ghost kids = placed[idx as int].children@;
        let ghost places = out_neighbors(graph_edges(self.graph), idx as int);
        let children = graph_children(&self.graph, idx);
        proof {
            lemma_subtrees_len(seq![self.tree@]);
            crate::layout::lemma_tree_children(self.tree@, idx as int);
            lemma_child_entries(kids);
        }
        let mut j: usize = 0;
        while j < children.len()
            invariant
                0 <= j <= children@.len(),
                self.wf(),
                placed == tree_subtrees(self.tree@),
                kids == placed[idx as int].children@,
                children@.map_values(|c: usize| c as int) == places,
                places.len() == kids.len(),
                forall|q: int|
                    0 <= q < places.len() ==> {
                        let place = #[trigger] places[q];
                        &&& 0 <= place < self.nodes@.len()
                        &&& placed[place] == kids[kids.len() - 1 - q]
                    },
                entries@.len() == j,
                forall|q: int|
                    0 <= q < j ==> (#[trigger] entries@[q])@ == tree_entry(
                        kids[kids.len() - 1 - q],
                    ),
            decreases children@.len() - j,
        {
            let child_idx = children[j];
            assert(child_idx as int == places[j as int]) by {
                assert(children@.map_values(|c: usize| c as int)[j as int] == children@[j as int]
                    as int);
            }
            assert(self.nodes_spec()[child_idx as int].hash_bytes() == tree_hash(
                placed[child_idx as int],
            ));
            entries.push(self.nodes[child_idx].to_entry());
            j += 1;
        }
        assert(crate::entry::entry_views(entries@) =~= child_entries(kids));
        entries
    }
}

impl<T: NameStr + WriteBytes + ObjectKindStr> HashingTree<T> {
    /// Computes the hash of every node and returns the tree of the hashed nodes.
    pub fn hash_tree(self) -> (r: Result<ObjectTree<T>, GraphError>)
        requires
            self.wf(),
            self.hashes_hold(),
        ensures
            r is Ok,
            r->Ok_0.wf(),
            r->Ok_0.source() == self.tree(),
            r->Ok_0.is_hashed_form_of(self.tree()),
    {
        let mut this = self;
        this.compute_hashes()?;
        this.create_hashed_tree()
    }

    /// Builds the tree of hashed nodes from the nodes and the hashes that were computed.
    ///
    /// Fails with `UnhashedNode` where a node has no hash; the error names the first such
    /// node that is looked at.
    pub fn create_hashed_tree(self) -> (r: Result<ObjectTree<T>, GraphError>)
        requires
            self.wf(),
            self.hashes_hold(),
        ensures
            r is Ok <==> self.fully_hashed(),
            r is Ok ==> r->Ok_0.wf() && r->Ok_0.source() == self.tree() && r->Ok_0.is_hashed_form_of(
                self.tree(),
            ),
            r is Err ==> exists|k: int|
                {
                    &&& 0 <= k < tree_subtrees(self.tree()).len()
                    &&& !self.hashes().contains_key(k as usize)
                    &&& r->Err_0@ == GraphErrorView::UnhashedNode(
                        (#[trigger] tree_subtrees(self.tree())[k]).inner.name_spec(),
                    )
                    &&& forall|q: int|
                        0 <= q < tree_subtrees(self.tree()).len() && !self.hashes().contains_key(
                            q as usize,
                        ) ==> #[trigger] looked_at_first(tree_edges(self.tree()), k, q)
                },
    {
        let ghost source = self.tree@;
        let ghost placed = tree_subtrees(source);
        let ghost edges = tree_edges(source);
        let ghost count = placed.len() as int;
        proof {
            lemma_single(source, None, 0);
            lemma_subtrees_len(seq![source]);
            crate::layout::lemma_tree_edges(source);
        }
        let HashingTree { nodes: other_nodes, graph: other_graph, root_idx: other_root, hashes, tree } =
            self;
        let ghost old_nodes = other_nodes@;

        let other_root_hash = match hash_at(&hashes, other_root) {
            Some(hash) => hash,
            None => {
                assert(old_nodes[0] == node_of(placed[0]));
                assert forall|q: int|
                    0 <= q < placed.len() && !self.hashes().contains_key(
                        q as usize,
                    ) implies #[trigger] looked_at_first(edges, 0, q) by {}
                return Err(GraphError::UnhashedNode(other_nodes[other_root].inner.name().to_owned()));
            },
        };

        // The nodes leave the old tree in the order of their places, so they are taken from
        // the end of the reversed list.
        let mut waiting: Vec<Node<T>> = Vec::new();
        let mut other_nodes = other_nodes;
        while other_nodes.len() > 0
            invariant
                other_nodes@.len() + waiting@.len() == count,
                count == old_nodes.len(),
                other_nodes@ == old_nodes.take(other_nodes@.len() as int),
                forall|i: int| 0 <= i < waiting@.len() ==> #[trigger] waiting@[i] == old_nodes[count - 1 - i],
            decreases other_nodes@.len(),
        {
            let node = other_nodes.pop().unwrap();
            waiting.push(node);
            proof {
                assert(other_nodes@ =~= old_nodes.take(other_nodes@.len() as int));
            }
        }

        let mut graph = graph_new();
        let mut hashed: Vec<HashedNode<T>> = Vec::new();
        let mut root_idx: Option<usize> = None;

        let mut stack: Vec<StackEntry> = Vec::new();
        stack.push(StackEntry { hash: other_root_hash, other_idx: other_root, parent_idx: None });
        proof {
            assert(stack@.drop_last() =~= Seq::empty());
            assert(chain(stack@.drop_last(), count, placed, edges, hashes@));
            assert(chain(stack@, 0, placed, edges, hashes@));
            assert(edges.take(0) =~= graph_edges(graph));
        }

        while stack.len() > 0
            invariant
                self.wf(),
                self.hashes_hold(),
                source == self.tree@,
                hashes@ == self.hashes@,
                placed == tree_subtrees(source),
                edges == tree_edges(source),
                graph_edges(other_graph) == edges,
                graph_node_count(other_graph) == count,
                count == placed.len() == old_nodes.len(),
                1 <= count,
                edges.len() == count - 1,
                forall|e: int|
                    0 <= e < edges.len() ==> (#[trigger] edges[e]).1 == e + 1 && 0 <= edges[e].0 <= e,
                forall|k: int| 0 <= k < count ==> old_nodes[k] == node_of(#[trigger] placed[k]),
                graph_node_count(graph) == hashed@.len(),
                hashed@.len() + waiting@.len() == count,
                forall|i: int| 0 <= i < waiting@.len() ==> #[trigger] waiting@[i] == old_nodes[count - 1 - i],
                forall|k: int|
                    0 <= k < hashed@.len() ==> {
                        let node = #[trigger] hashed@[k];
                        &&& node.kind_spec() == placed[k].kind
                        &&& node.inner_spec() == placed[k].inner
                        &&& node.hash_bytes() == tree_hash(placed[k])
                        &&& hashes@.contains_key(k as usize)
                    },
                graph_edges(graph) == edges.take(
                    if hashed@.len() == 0 {
                        0
                    } else {
                        hashed@.len() - 1
                    },
                ),
                root_idx is None <==> hashed@.len() == 0,
                root_idx is Some ==> root_idx->0 == 0,
                chain(stack@, hashed@.len() as int, placed, edges, hashes@),
                hashes@.contains_key(0),
                forall|q: int|
                    0 < q < count && (#[trigger] edges[q - 1]).0 < hashed@.len()
                        ==> hashes@.contains_key(q as usize),
            decreases count - hashed@.len(),
        {
            let ghost at = hashed@.len() as int;
            let ghost old_stack = stack@;
            let entry = stack.pop().unwrap();
            let ghost rest = stack@;
            proof {
                assert(old_stack.last() == entry);
                assert(old_stack.drop_last() =~= rest);
            }
            let node = waiting.pop().unwrap();
            assert(node == old_nodes[at]);
            hashed.push(HashedNode::new(node, entry.hash));
            let placed_count = hashed.len();
            assert(graph_node_count(graph) < placed_count);
            let node_idx = graph_add_node(&mut graph);

            match entry.parent_idx {
                Some(parent_idx) => {
                    graph_add_edge(&mut graph, parent_idx, node_idx);
                    assert(graph_edges(graph) =~= edges.take(at));
                },
                None => match root_idx {
                    None => {
                        root_idx = Some(node_idx);
                        assert(graph_edges(graph) =~= edges.take(0));
                    },
                    Some(_) => {
                        return Err(GraphError::MultipleRootNode);
                    },
                },
            };

            let children = graph_children(&other_graph, entry.other_idx);
            let ghost first = stack@.len() as int;
            proof {
                self.lemma_children(at);
                assert(children@.len() == self.children_places(at).len());
            }
            let mut j: usize = 0;
            while j < children.len()
                invariant
                    0 <= j <= children@.len(),
                    self.wf(),
                    source == self.tree@,
                    hashes@ == self.hashes@,
                    placed == tree_subtrees(source),
                    edges == tree_edges(source),
                    count == placed.len() == old_nodes.len(),
                    forall|k: int| 0 <= k < count ==> old_nodes[k] == node_of(#[trigger] placed[k]),
                    hashed@.len() == at + 1,
                    hashed@.len() + waiting@.len() == count,
                    forall|i: int|
                        0 <= i < waiting@.len() ==> #[trigger] waiting@[i] == old_nodes[count - 1 - i],
                    node_idx == at,
                    0 <= at < count,
                    children@.map_values(|c: usize| c as int) == self.children_places(at),
                    self.children_places(at).len() == placed[at].children@.len(),
                    forall|q: int|
                        0 <= q < self.children_places(at).len() ==> {
                            let place = #[trigger] self.children_places(at)[q];
                            let kids = placed[at].children@;
                            &&& at < place < count
                            &&& place == at + 1 + forest_size(kids.take(kids.len() - 1 - q))
                            &&& placed[place] == kids[kids.len() - 1 - q]
                            &&& 0 <= place - 1 < edges.len()
                            &&& edges[place - 1] == (at, place)
                        },
                    first == rest.len(),
                    stack@.len() == first + j,
                    stack@.take(first) == rest,
                    forall|q: int|
                        0 <= q < j ==> {
                            let pushed = #[trigger] stack@[first + q];
                            &&& pushed.other_idx == self.children_places(at)[q]
                            &&& pushed.parent_idx == Some(at as usize)
                            &&& hashes@.contains_key(pushed.other_idx)
                            &&& hashes@[pushed.other_idx] == pushed.hash
                        },
                    hashes@.contains_key(0),
                    edges.len() == count - 1,
                    forall|e: int|
                        0 <= e < edges.len() ==> (#[trigger] edges[e]).1 == e + 1 && 0 <= edges[e].0
                            <= e,
                    forall|q: int|
                        0 < q < count && (#[trigger] edges[q - 1]).0 < at ==> hashes@.contains_key(
                            q as usize,
                        ),
                decreases children@.len() - j,
            {
                let other_child_idx = children[j];
                assert(other_child_idx as int == self.children_places(at)[j as int]) by {
                    assert(children@.map_values(|c: usize| c as int)[j as int]
                        == children@[j as int] as int);
                }
                let other_hash = match hash_at(&hashes, other_child_idx) {
                    Some(hash) => hash,
                    None => {
                        let other_node = &waiting[waiting.len() - (other_child_idx - node_idx)];
                        assert(*other_node == node_of(placed[other_child_idx as int]));
                        proof {
                            let places = self.children_places(at);
                            let kids = placed[at].children@;
                            let p = other_child_idx as int;
                            assert forall|q: int|
                                0 <= q < placed.len() && !self.hashes().contains_key(
                                    q as usize,
                                ) implies #[trigger] looked_at_first(edges, p, q) by {
                                assert(q != 0);
                                assert(edges[q - 1].0 >= at);
                                if edges[q - 1].0 == at {
                                    crate::layout::lemma_out_neighbors_has(edges, q - 1);
                                    let i = choose|i: int|
                                        0 <= i < places.len() && #[trigger] places[i] == q;
                                    if i < j {
                                        assert(stack@[first + i].other_idx == places[i]);
                                    }
                                    crate::layout::lemma_size_take_grows(
                                        kids,
                                        kids.len() - 1 - i,
                                        kids.len() - 1 - j,
                                    );
                                }
                            }
                        }
                        return Err(GraphError::UnhashedNode(other_node.inner.name().to_owned()));
                    },
                };
                let ghost before = stack@;
                stack.push(
                    StackEntry {
                        hash: other_hash,
                        other_idx: other_child_idx,
                        parent_idx: Some(node_idx),
                    },
                );
                proof {
                    assert(stack@.take(first) =~= before.take(first));
                    assert forall|q: int| 0 <= q < j + 1 implies ({
                        let pushed = #[trigger] stack@[first + q];
                        &&& pushed.other_idx == self.children_places(at)[q]
                        &&& pushed.parent_idx == Some(at as usize)
                        &&& hashes@.contains_key(pushed.other_idx)
                        &&& hashes@[pushed.other_idx] == pushed.hash
                    }) by {
                        if q < j {
                            assert(stack@[first + q] == before[first + q]);
                        }
                    }
                }
                j += 1;
            }
            proof {
                let pushed = stack@.skip(first);
                assert(stack@ =~= rest + pushed.take(pushed.len() as int));
                let kids = placed[at].children@;
                assert(kids.take(0) =~= Seq::empty());
                assert forall|q: int| 0 <= q < pushed.len() implies ({
                    let place = (#[trigger] pushed[q]).other_idx as int;
                    &&& place == at + 1 + forest_size(kids.take(kids.len() - 1 - q))
                    &&& place < placed.len()
                    &&& placed[place] == kids[kids.len() - 1 - q]
                    &&& pushed[q].parent_idx == Some(at as usize)
                    &&& edges[place - 1].0 == at
                    &&& hashes@.contains_key(pushed[q].other_idx)
                    &&& hashes@[pushed[q].other_idx] == pushed[q].hash
                }) by {
                    assert(pushed[q] == stack@[first + q]);
                    let place = self.children_places(at)[q];
                }
                lemma_chain_pushed(rest, pushed, at, placed, edges, hashes@, pushed.len() as int);
                assert forall|q: int|
                    0 < q < count && (#[trigger] edges[q - 1]).0 < at + 1 implies hashes@.contains_key(
                    q as usize,
                ) by {
                    if edges[q - 1].0 == at {
                        crate::layout::lemma_out_neighbors_has(edges, q - 1);
                        let places = self.children_places(at);
                        let i = choose|i: int| 0 <= i < places.len() && #[trigger] places[i] == q;
                        assert(stack@[first + i].other_idx == q);
                    }
                }
            }
        }

        match root_idx {
            Some(root_idx) => {
                let tree = ObjectTree { nodes: hashed, graph, root_idx, tree: Ghost(source) };
                proof {
                    assert(graph_edges(graph) =~= edges);
                    assert(tree.is_hashed_form_of(source));
                    assert forall|k: usize| k < placed.len() implies #[trigger] self.hashes@.contains_key(
                        k,
                    ) by {
                        assert(hashed@[k as int].kind_spec() == placed[k as int].kind);
                    }
                }
                Ok(tree)
            },
            None => Err(GraphError::MissingRootNode),
        }
    }
}

} // verus!
