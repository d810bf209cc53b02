//! The schematic: the nodes of a view with their sockets and connections, and its edges; and
//! how a node is pruned from it.
//!
//! The maps of a schematic are lists of pairs of a key and a value, in which no key stands
//! twice.

use vstd::prelude::*;
use crate::text::{lemma_position_is, position, str_eq};

verus! {

/// Which view of the system a schematic shows.
#[derive(Debug, PartialEq, Eq, Clone, Copy, Structural)]
pub enum SchematicKind {
    System,
    Deployment,
    Component,
    Implementation,
}

/// A node with the positions that it has in the views, each under the key of its context.
#[derive(Debug, Clone, PartialEq, Eq)]
pub struct NodeWithPositions<P, S> {
    pub id: String,
    pub object_type: String,
    pub object_id: String,
    pub positions: Vec<(String, P)>,
    pub si_storable: S,
}

/// One end of a connection: the edge, the node on its other side and the socket there.
#[derive(Debug, Clone, PartialEq, Eq)]
pub struct ConnectionEdge {
    pub edge_id: String,
    pub node_id: String,
    pub socket_id: String,
}

/// The connections of a node by the kind of their edge: those that lead to the node and
/// those that leave it.
#[derive(Debug, Clone, PartialEq, Eq)]
pub struct Connections {
    pub predecessors: Vec<(String, Vec<ConnectionEdge>)>,
    pub successors: Vec<(String, Vec<ConnectionEdge>)>,
}

/// Whether a socket takes connections in or gives them out.
#[derive(Debug, Clone, Copy, PartialEq, Eq, Structural)]
pub enum SocketKind {
    Input,
    Output,
}

/// What a socket carries.
#[derive(Debug, Clone, Copy, PartialEq, Eq, Structural)]
pub enum SocketType {
    Object,
}

/// A socket of a node.
#[derive(Debug, Clone, PartialEq, Eq)]
pub struct Socket {
    pub id: String,
    pub socket_kind: SocketKind,
    pub socket_type: SocketType,
    pub object_type: Option<String>,
}

/// The sockets of a node.
#[derive(Debug, Clone, PartialEq, Eq)]
pub struct SchematicNodeSockets {
    pub inputs: Vec<Socket>,
    pub outputs: Vec<Socket>,
}

/// A node of a schematic: the node, its sockets, the object that it stands for, and its
/// connections.
#[derive(Debug, Clone, PartialEq, Eq)]
pub struct SchematicNode<N, O> {
    pub node: N,
    pub sockets: SchematicNodeSockets,
    pub object: O,
    pub connections: Connections,
}

/// One end of an edge.
#[derive(Debug, Clone, PartialEq, Eq)]
pub struct Vertex {
    pub node_id: String,
    pub object_id: String,
    pub socket: String,
}

/// An edge between two nodes.
#[derive(Debug, Clone, PartialEq, Eq)]
pub struct Edge {
    pub id: String,
    pub tail_vertex: Vertex,
    pub head_vertex: Vertex,
}

/// A schematic: its nodes by node id, and its edges by edge id.
#[derive(Debug, Clone, PartialEq, Eq)]
pub struct Schematic<N, O> {
    pub nodes: Vec<(String, SchematicNode<N, O>)>,
    pub edges: Vec<(String, Edge)>,
}

/// What a group of connections holds: its key and its list.
pub struct GroupView {
    pub key: Seq<char>,
    pub list: Seq<ConnectionEdge>,
}

/// What the connections of a node hold.
pub struct ConnectionsView {
    pub predecessors: Seq<GroupView>,
    pub successors: Seq<GroupView>,
}

/// What a node of a schematic holds.
pub struct SchematicNodeView<N, O> {
    pub node: N,
    pub sockets: SchematicNodeSockets,
    pub object: O,
    pub connections: ConnectionsView,
}

/// What a schematic holds: its nodes under their keys, and its edges under theirs.
pub struct SchematicView<N, O> {
    pub nodes: Seq<(Seq<char>, SchematicNodeView<N, O>)>,
    pub edges: Seq<(Seq<char>, Edge)>,
}

/// The views of groups of connections.
pub open spec fn group_views(groups: Seq<(String, Vec<ConnectionEdge>)>) -> Seq<GroupView> {
    Seq::new(groups.len(), |i: int| GroupView { key: groups[i].0@, list: groups[i].1@ })
}

impl View for Connections {
    type V = ConnectionsView;

    open spec fn view(&self) -> ConnectionsView {
        ConnectionsView {
            predecessors: group_views(self.predecessors@),
            successors: group_views(self.successors@),
        }
    }
}

impl<N, O> View for SchematicNode<N, O> {
    type V = SchematicNodeView<N, O>;

    open spec fn view(&self) -> SchematicNodeView<N, O> {
        SchematicNodeView {
            node: self.node,
            sockets: self.sockets,
            object: self.object,
            connections: self.connections@,
        }
    }
}

impl<N, O> View for Schematic<N, O> {
    type V = SchematicView<N, O>;

    open spec fn view(&self) -> SchematicView<N, O> {
        SchematicView { nodes: node_views(self.nodes@), edges: edge_views(self.edges@) }
    }
}

/// The connections of `list` that do not refer to the node `id`, in their order.
pub open spec fn pruned_list(list: Seq<ConnectionEdge>, id: Seq<char>) -> Seq<ConnectionEdge>
    decreases list.len(),
{
    if list.len() == 0 {
        Seq::empty()
    } else if list.last().node_id@ != id {
        pruned_list(list.drop_last(), id).push(list.last())
    } else {
        pruned_list(list.drop_last(), id)
    }
}

/// The groups with their lists pruned of the node `id`, without the groups that are then
/// empty, in their order.
pub open spec fn pruned_groups(groups: Seq<GroupView>, id: Seq<char>) -> Seq<GroupView>
    decreases groups.len(),
{
    if groups.len() == 0 {
        Seq::empty()
    } else if pruned_list(groups.last().list, id).len() > 0 {
        pruned_groups(groups.drop_last(), id).push(
            GroupView { key: groups.last().key, list: pruned_list(groups.last().list, id) },
        )
    } else {
        pruned_groups(groups.drop_last(), id)
    }
}

/// The node with its connections pruned of the node `id`.
pub open spec fn pruned_node<N, O>(node: SchematicNodeView<N, O>, id: Seq<char>) -> SchematicNodeView<
    N,
    O,
> {
    SchematicNodeView {
        node: node.node,
        sockets: node.sockets,
        object: node.object,
        connections: ConnectionsView {
            predecessors: pruned_groups(node.connections.predecessors, id),
            successors: pruned_groups(node.connections.successors, id),
        },
    }
}

/// The nodes without the node `id`, each pruned of it, in their order.
pub open spec fn pruned_nodes<N, O>(
    nodes: Seq<(Seq<char>, SchematicNodeView<N, O>)>,
    id: Seq<char>,
) -> Seq<(Seq<char>, SchematicNodeView<N, O>)>
    decreases nodes.len(),
{
    if nodes.len() == 0 {
        Seq::empty()
    } else if nodes.last().0 != id {
        pruned_nodes(nodes.drop_last(), id).push((nodes.last().0, pruned_node(nodes.last().1, id)))
    } else {
        pruned_nodes(nodes.drop_last(), id)
    }
}

/// The edges that neither lead to the node `id` nor leave it, in their order.
pub open spec fn pruned_edges(edges: Seq<(Seq<char>, Edge)>, id: Seq<char>) -> Seq<
    (Seq<char>, Edge),
>
    decreases edges.len(),
{
    if edges.len() == 0 {
        Seq::empty()
    } else if edges.last().1.head_vertex.node_id@ != id && edges.last().1.tail_vertex.node_id@
        != id {
        pruned_edges(edges.drop_last(), id).push(edges.last())
    } else {
        pruned_edges(edges.drop_last(), id)
    }
}

/// The schematic without the node `id`: without its entry, without the connections that
/// refer to it, without the groups of connections that are then empty, and without the edges
/// at it.
pub open spec fn pruned_schematic<N, O>(schematic: SchematicView<N, O>, id: Seq<char>) -> SchematicView<
    N,
    O,
> {
    SchematicView {
        nodes: pruned_nodes(schematic.nodes, id),
        edges: pruned_edges(schematic.edges, id),
    }
}

/// No key stands twice among `nodes`.
pub open spec fn node_keys_distinct<N, O>(nodes: Seq<(Seq<char>, SchematicNodeView<N, O>)>) -> bool {
    forall|i: int, j: int|
        0 <= i < j < nodes.len() ==> (#[trigger] nodes[i]).0 != (#[trigger] nodes[j]).0
}

/// No key stands twice among `edges`.
pub open spec fn edge_keys_distinct(edges: Seq<(Seq<char>, Edge)>) -> bool {
    forall|i: int, j: int|
        0 <= i < j < edges.len() ==> (#[trigger] edges[i]).0 != (#[trigger] edges[j]).0
}

/// A pruned list holds connections of the list, and none of them refers to the pruned node.
pub proof fn lemma_pruned_list(list: Seq<ConnectionEdge>, id: Seq<char>)
    ensures
        pruned_list(list, id).len() <= list.len(),
        forall|i: int|
            0 <= i < pruned_list(list, id).len() ==> {
                &&& (#[trigger] pruned_list(list, id)[i]).node_id@ != id
                &&& list.contains(pruned_list(list, id)[i])
            },
    decreases list.len(),
{
    if list.len() > 0 {
        let rest = list.drop_last();
        lemma_pruned_list(rest, id);
        assert forall|i: int| 0 <= i < pruned_list(list, id).len() implies ({
            &&& (#[trigger] pruned_list(list, id)[i]).node_id@ != id
            &&& list.contains(pruned_list(list, id)[i])
        }) by {
            if i < pruned_list(rest, id).len() {
                let c = pruned_list(rest, id)[i];
                assert(rest.contains(c));
                let k = choose|k: int| 0 <= k < rest.len() && rest[k] == c;
                assert(list[k] == c);
            } else {
                assert(list[list.len() - 1] == list.last());
            }
        }
    }
}

/// Pruned groups hold no empty list and no connection that refers to the pruned node.
pub proof fn lemma_pruned_groups(groups: Seq<GroupView>, id: Seq<char>)
    ensures
        pruned_groups(groups, id).len() <= groups.len(),
        forall|i: int|
            0 <= i < pruned_groups(groups, id).len() ==> {
                let group = #[trigger] pruned_groups(groups, id)[i];
                &&& group.list.len() > 0
                &&& forall|k: int| 0 <= k < group.list.len() ==> (#[trigger] group.list[k]).node_id@ != id
            },
    decreases groups.len(),
{
    if groups.len() > 0 {
        lemma_pruned_groups(groups.drop_last(), id);
        lemma_pruned_list(groups.last().list, id);
    }
}

/// Pruned nodes keep their keys: none has the key of the pruned node, each key stood among
/// the nodes before, and where no key stood twice before none does after.
pub proof fn lemma_pruned_nodes<N, O>(
    nodes: Seq<(Seq<char>, SchematicNodeView<N, O>)>,
    id: Seq<char>,
)
    ensures
        pruned_nodes(nodes, id).len() <= nodes.len(),
        forall|i: int|
            0 <= i < pruned_nodes(nodes, id).len() ==> {
                &&& (#[trigger] pruned_nodes(nodes, id)[i]).0 != id
                &&& exists|k: int| 0 <= k < nodes.len() && nodes[k].0 == pruned_nodes(nodes, id)[i].0
            },
        node_keys_distinct(nodes) ==> node_keys_distinct(pruned_nodes(nodes, id)),
    decreases nodes.len(),
{
    if nodes.len() > 0 {
        let rest = nodes.drop_last();
        let out = pruned_nodes(nodes, id);
        lemma_pruned_nodes(rest, id);
        assert forall|i: int| 0 <= i < out.len() implies ({
            &&& (#[trigger] out[i]).0 != id
            &&& exists|k: int| 0 <= k < nodes.len() && nodes[k].0 == out[i].0
        }) by {
            if i < pruned_nodes(rest, id).len() {
                let k = choose|k: int|
                    0 <= k < rest.len() && rest[k].0 == pruned_nodes(rest, id)[i].0;
                assert(nodes[k].0 == out[i].0);
            } else {
                assert(nodes[nodes.len() - 1].0 == out[i].0);
            }
        }
        if node_keys_distinct(nodes) {
            assert(node_keys_distinct(rest)) by {
                assert forall|i: int, j: int| 0 <= i < j < rest.len() implies (
                #[trigger] rest[i]).0 != (#[trigger] rest[j]).0 by {
                    assert(rest[i] == nodes[i] && rest[j] == nodes[j]);
                }
            }
            assert forall|i: int, j: int| 0 <= i < j < out.len() implies (#[trigger] out[i]).0 != (
            #[trigger] out[j]).0 by {
                if j == pruned_nodes(rest, id).len() {
                    let k = choose|k: int|
                        0 <= k < rest.len() && rest[k].0 == pruned_nodes(rest, id)[i].0;
                    assert(nodes[k].0 != nodes[nodes.len() - 1].0);
                }
            }
        }
    }
}

/// Pruned edges keep their keys, and none of them leads to the pruned node or leaves it.
pub proof fn lemma_pruned_edges(edges: Seq<(Seq<char>, Edge)>, id: Seq<char>)
    ensures
        pruned_edges(edges, id).len() <= edges.len(),
        forall|i: int|
            0 <= i < pruned_edges(edges, id).len() ==> {
                let edge = #[trigger] pruned_edges(edges, id)[i];
                &&& edge.1.head_vertex.node_id@ != id
                &&& edge.1.tail_vertex.node_id@ != id
                &&& edges.contains(edge)
            },
        edge_keys_distinct(edges) ==> edge_keys_distinct(pruned_edges(edges, id)),
    decreases edges.len(),
{
    if edges.len() > 0 {
        let rest = edges.drop_last();
        let out = pruned_edges(edges, id);
        lemma_pruned_edges(rest, id);
        assert forall|i: int| 0 <= i < out.len() implies ({
            let edge = #[trigger] out[i];
            &&& edge.1.head_vertex.node_id@ != id
            &&& edge.1.tail_vertex.node_id@ != id
            &&& edges.contains(edge)
        }) by {
            if i < pruned_edges(rest, id).len() {
                let e = pruned_edges(rest, id)[i];
                assert(rest.contains(e));
                let k = choose|k: int| 0 <= k < rest.len() && rest[k] == e;
                assert(edges[k] == e);
            } else {
                assert(edges[edges.len() - 1] == out[i]);
            }
        }
        if edge_keys_distinct(edges) {
            assert(edge_keys_distinct(rest)) by {
                assert forall|i: int, j: int| 0 <= i < j < rest.len() implies (
                #[trigger] rest[i]).0 != (#[trigger] rest[j]).0 by {
                    assert(rest[i] == edges[i] && rest[j] == edges[j]);
                }
            }
            assert forall|i: int, j: int| 0 <= i < j < out.len() implies (#[trigger] out[i]).0 != (
            #[trigger] out[j]).0 by {
                if j == pruned_edges(rest, id).len() {
                    let e = pruned_edges(rest, id)[i];
                    assert(rest.contains(e));
                    let k = choose|k: int| 0 <= k < rest.len() && rest[k] == e;
                    assert(edges[k].0 != edges[edges.len() - 1].0);
                }
            }
        }
    }
}

/// Why a schematic cannot be made.
#[derive(Debug, Clone, Copy, PartialEq, Eq, Structural)]
pub enum SchematicError {
    /// No change set was given where one was needed.
    NoChangeSet,
    /// A node is missing among the nodes that the edges of the schematic lead to.
    MissingNode,
}

/// The keys of groups of connections, in their order.
pub open spec fn group_keys(groups: Seq<GroupView>) -> Seq<Seq<char>> {
    Seq::new(groups.len(), |i: int| groups[i].key)
}

/// The keys of nodes, in their order.
pub open spec fn node_keys<N, O>(nodes: Seq<(Seq<char>, SchematicNodeView<N, O>)>) -> Seq<Seq<char>> {
    Seq::new(nodes.len(), |i: int| nodes[i].0)
}

/// The keys of edges, in their order.
pub open spec fn edge_keys(edges: Seq<(Seq<char>, Edge)>) -> Seq<Seq<char>> {
    Seq::new(edges.len(), |i: int| edges[i].0)
}

/// The groups with `connection` added under the key `kind`: at the end of the list of that
/// group, or as the list of a new group at the end where no group has the key.
pub open spec fn with_connection(
    groups: Seq<GroupView>,
    kind: Seq<char>,
    connection: ConnectionEdge,
) -> Seq<GroupView> {
    let at = position(group_keys(groups), kind);
    if at < groups.len() {
        groups.update(at, GroupView { key: kind, list: groups[at].list.push(connection) })
    } else {
        groups.push(GroupView { key: kind, list: seq![connection] })
    }
}

/// The edges with `edge` under the key of its id: in the place of the edge that had the key,
/// or at the end where none had it.
pub open spec fn with_edge(edges: Seq<(Seq<char>, Edge)>, edge: Edge) -> Seq<(Seq<char>, Edge)> {
    let at = position(edge_keys(edges), edge.id@);
    if at < edges.len() {
        edges.update(at, (edge.id@, edge))
    } else {
        edges.push((edge.id@, edge))
    }
}

/// The node with `connection` among its predecessors under the key `kind`.
pub open spec fn with_predecessor<N, O>(
    node: SchematicNodeView<N, O>,
    kind: Seq<char>,
    connection: ConnectionEdge,
) -> SchematicNodeView<N, O> {
    SchematicNodeView {
        node: node.node,
        sockets: node.sockets,
        object: node.object,
        connections: ConnectionsView {
            predecessors: with_connection(node.connections.predecessors, kind, connection),
            successors: node.connections.successors,
        },
    }
}

/// The node with `connection` among its successors under the key `kind`.
pub open spec fn with_successor<N, O>(
    node: SchematicNodeView<N, O>,
    kind: Seq<char>,
    connection: ConnectionEdge,
) -> SchematicNodeView<N, O> {
    SchematicNodeView {
        node: node.node,
        sockets: node.sockets,
        object: node.object,
        connections: ConnectionsView {
            predecessors: node.connections.predecessors,
            successors: with_connection(node.connections.successors, kind, connection),
        },
    }
}

/// The connection that an edge makes at the node it leads to: to the node at its tail.
pub open spec fn tail_connection(edge: Edge) -> ConnectionEdge {
    ConnectionEdge {
        edge_id: edge.id,
        node_id: edge.tail_vertex.node_id,
        socket_id: edge.tail_vertex.socket,
    }
}

/// The connection that an edge makes at the node at its head, where that is not the node it
/// was found for.
pub open spec fn head_connection(edge: Edge) -> ConnectionEdge {
    ConnectionEdge {
        edge_id: edge.id,
        node_id: edge.head_vertex.node_id,
        socket_id: edge.head_vertex.socket,
    }
}

/// The nodes with the connections of `edge`, where the node `successor` is among them: that
/// node gets the tail of the edge as a predecessor; and where the head of the edge is another
/// node that is among the nodes, that node gets the head of the edge as a successor.
pub open spec fn connected_nodes<N, O>(
    nodes: Seq<(Seq<char>, SchematicNodeView<N, O>)>,
    edge: Edge,
    kind: Seq<char>,
    successor: Seq<char>,
) -> Seq<(Seq<char>, SchematicNodeView<N, O>)> {
    let at = position(node_keys(nodes), successor);
    let first = nodes.update(at, (successor, with_predecessor(nodes[at].1, kind, tail_connection(edge))));
    let head = position(node_keys(nodes), edge.head_vertex.node_id@);
    if edge.head_vertex.node_id@ != successor && head < nodes.len() {
        first.update(
            head,
            (edge.head_vertex.node_id@, with_successor(first[head].1, kind, head_connection(edge))),
        )
    } else {
        first
    }
}

/// The place of the first group that has the key `kind`.
fn find_group(groups: &Vec<(String, Vec<ConnectionEdge>)>, kind: &str) -> (at: usize)
    ensures
        at == position(group_keys(group_views(groups@)), kind@),
        at <= groups@.len(),
{
    let ghost keys = group_keys(group_views(groups@));
    let mut at: usize = 0;
    while at < groups.len() && !str_eq(groups[at].0.as_str(), kind)
        invariant
            0 <= at <= groups@.len(),
            keys == group_keys(group_views(groups@)),
            forall|j: int| 0 <= j < at ==> keys[j] != kind@,
        decreases groups@.len() - at,
    {
        at += 1;
    }
    proof {
        lemma_position_is(keys, kind@, at as int);
    }
    at
}

/// Adds `connection_edge` to the group of the key `kind`, which is made where it is missing.
pub fn add_connection(
    groups: &mut Vec<(String, Vec<ConnectionEdge>)>,
    kind: &str,
    connection_edge: ConnectionEdge,
)
    ensures
        group_views(final(groups)@) == with_connection(
            group_views(old(groups)@),
            kind@,
            connection_edge,
        ),
{
    let at = find_group(groups, kind);
    proof {
        crate::text::lemma_position(group_keys(group_views(groups@)), kind@);
    }
    if at < groups.len() {
        let ghost before = groups@;
        groups[at].1.push(connection_edge);
        proof {
            let want = with_connection(group_views(before), kind@, connection_edge);
            assert(groups@.len() == before.len());
            assert(groups@[at as int].0 == before[at as int].0);
            assert(groups@[at as int].1@ == before[at as int].1@.push(connection_edge));
            assert(group_keys(group_views(before))[at as int] == kind@);
            assert forall|j: int| 0 <= j < groups@.len() implies group_views(groups@)[j]
                == want[j] by {
                if j != at {
                    assert(groups@[j] == before[j]);
                }
            }
            assert(group_views(groups@) =~= want);
        }
    } else {
        let mut list: Vec<ConnectionEdge> = Vec::new();
        list.push(connection_edge);
        groups.push((kind.to_owned(), list));
        assert(group_views(groups@) =~= with_connection(
            group_views(old(groups)@),
            kind@,
            connection_edge,
        ));
    }
}

/// Moves the items out of `items`, the last first.
fn take_reversed<T>(items: &mut Vec<T>) -> (out: Vec<T>)
    ensures
        out@ == old(items)@.reverse(),
        final(items)@.len() == 0,
{
    let mut out: Vec<T> = Vec::new();
    while items.len() > 0
        invariant
            items@.len() + out@.len() == old(items)@.len(),
            items@ == old(items)@.take(items@.len() as int),
            forall|i: int|
                0 <= i < out@.len() ==> #[trigger] out@[i] == old(items)@[old(items)@.len() - 1 - i],
        decreases items@.len(),
    {
        let item = items.pop().unwrap();
        out.push(item);
        assert(items@ =~= old(items)@.take(items@.len() as int));
    }
    assert(out@ =~= old(items)@.reverse());
    out
}

/// Removes the connections that refer to the node `id`.
fn prune_list(list: &mut Vec<ConnectionEdge>, id: &str)
    ensures
        final(list)@ == pruned_list(old(list)@, id@),
{
    let mut waiting = take_reversed(list);
    let ghost all = old(list)@;
    assert(all.take(0) =~= Seq::empty());
    assert(list@ =~= pruned_list(all.take(0), id@));
    while waiting.len() > 0
        invariant
            waiting@.len() <= all.len(),
            forall|i: int|
                0 <= i < waiting@.len() ==> #[trigger] waiting@[i] == all[all.len() - 1 - i],
            list@ == pruned_list(all.take(all.len() - waiting@.len()), id@),
        decreases waiting@.len(),
    {
        let ghost done = all.len() - waiting@.len();
        let connection_edge = waiting.pop().unwrap();
        proof {
            assert(connection_edge == all[done]);
            assert(all.take(done + 1).drop_last() =~= all.take(done));
            assert(all.take(done + 1).last() == all[done]);
        }
        if !str_eq(connection_edge.node_id.as_str(), id) {
            list.push(connection_edge);
        }
    }
    assert(all.take(all.len() as int) =~= all);
}

/// Removes the connections that refer to the node `id` from each group, and the groups that
/// are then empty.
fn prune_groups(groups: &mut Vec<(String, Vec<ConnectionEdge>)>, id: &str)
    ensures
        group_views(final(groups)@) == pruned_groups(group_views(old(groups)@), id@),
{
    let mut waiting = take_reversed(groups);
    let ghost all = old(groups)@;
    let ghost views = group_views(all);
    assert(views.take(0) =~= Seq::empty());
    assert(group_views(groups@) =~= pruned_groups(views.take(0), id@));
    while waiting.len() > 0
        invariant
            views == group_views(all),
            waiting@.len() <= all.len(),
            forall|i: int|
                0 <= i < waiting@.len() ==> #[trigger] waiting@[i] == all[all.len() - 1 - i],
            group_views(groups@) == pruned_groups(views.take(all.len() - waiting@.len()), id@),
        decreases waiting@.len(),
    {
        let ghost done = all.len() - waiting@.len();
        let ghost before = groups@;
        let (key, mut connection_edges) = waiting.pop().unwrap();
        proof {
            assert((key, connection_edges) == all[done]);
            assert(views.take(done + 1).drop_last() =~= views.take(done));
            assert(views.take(done + 1).last() == views[done]);
        }
        prune_list(&mut connection_edges, id);
        if connection_edges.len() > 0 {
            groups.push((key, connection_edges));
            assert(group_views(groups@) =~= group_views(before).push(
                GroupView { key: key@, list: connection_edges@ },
            ));
        }
    }
    assert(views.take(all.len() as int) =~= views);
}

/// The views of nodes under their keys.
pub open spec fn node_views<N, O>(nodes: Seq<(String, SchematicNode<N, O>)>) -> Seq<
    (Seq<char>, SchematicNodeView<N, O>),
> {
    Seq::new(nodes.len(), |i: int| (nodes[i].0@, nodes[i].1@))
}

/// The views of edges under their keys.
pub open spec fn edge_views(edges: Seq<(String, Edge)>) -> Seq<(Seq<char>, Edge)> {
    Seq::new(edges.len(), |i: int| (edges[i].0@, edges[i].1))
}

/// Removes the entry of the node `id`, and from the other nodes the connections that refer
/// to it.
fn prune_nodes<N, O>(nodes: &mut Vec<(String, SchematicNode<N, O>)>, id: &str)
    ensures
        node_views(final(nodes)@) == pruned_nodes(node_views(old(nodes)@), id@),
{
    let mut waiting = take_reversed(nodes);
    let ghost all = old(nodes)@;
    let ghost views = node_views(all);
    proof {
        assert(views.take(0) =~= Seq::empty());
        assert(node_views(nodes@) =~= pruned_nodes(views.take(0), id@));
    }
    while waiting.len() > 0
        invariant
            views == node_views(all),
            waiting@.len() <= all.len(),
            forall|i: int|
                0 <= i < waiting@.len() ==> #[trigger] waiting@[i] == all[all.len() - 1 - i],
            node_views(nodes@) == pruned_nodes(views.take(all.len() - waiting@.len()), id@),
        decreases waiting@.len(),
    {
        let ghost done = all.len() - waiting@.len();
        let ghost before = node_views(nodes@);
        let (key, mut node) = waiting.pop().unwrap();
        proof {
            assert((key, node) == all[done]);
            assert(views.take(done + 1).drop_last() =~= views.take(done));
            assert(views.take(done + 1).last() == views[done]);
        }
        if !str_eq(key.as_str(), id) {
            prune_groups(&mut node.connections.predecessors, id);
            prune_groups(&mut node.connections.successors, id);
            nodes.push((key, node));
            assert(node_views(nodes@) =~= before.push((key@, node@)));
        }
    }
    assert(views.take(all.len() as int) =~= views);
}

/// Removes the edges that lead to the node `id` or leave it.
fn prune_edges(edges: &mut Vec<(String, Edge)>, id: &str)
    ensures
        edge_views(final(edges)@) == pruned_edges(edge_views(old(edges)@), id@),
{
    let mut waiting = take_reversed(edges);
    let ghost all = old(edges)@;
    let ghost views = edge_views(all);
    proof {
        assert(views.take(0) =~= Seq::empty());
        assert(edge_views(edges@) =~= pruned_edges(views.take(0), id@));
    }
    while waiting.len() > 0
        invariant
            views == edge_views(all),
            waiting@.len() <= all.len(),
            forall|i: int|
                0 <= i < waiting@.len() ==> #[trigger] waiting@[i] == all[all.len() - 1 - i],
            edge_views(edges@) == pruned_edges(views.take(all.len() - waiting@.len()), id@),
        decreases waiting@.len(),
    {
        let ghost done = all.len() - waiting@.len();
        let ghost before = edge_views(edges@);
        let (key, edge) = waiting.pop().unwrap();
        proof {
            assert((key, edge) == all[done]);
            assert(views.take(done + 1).drop_last() =~= views.take(done));
            assert(views.take(done + 1).last() == views[done]);
        }
        if !str_eq(edge.head_vertex.node_id.as_str(), id) && !str_eq(
            edge.tail_vertex.node_id.as_str(),
            id,
        ) {
            edges.push((key, edge));
            assert(edge_views(edges@) =~= before.push((key@, edge)));
        }
    }
    assert(views.take(all.len() as int) =~= views);
}

/// Recording an edge keeps the keys apart: the edges get at most the one new key, and the
/// nodes keep theirs.
pub proof fn lemma_recorded_keys<N, O>(
    nodes: Seq<(Seq<char>, SchematicNodeView<N, O>)>,
    edges: Seq<(Seq<char>, Edge)>,
    edge: Edge,
    kind: Seq<char>,
    successor: Seq<char>,
)
    ensures
        edge_keys_distinct(edges) ==> edge_keys_distinct(with_edge(edges, edge)),
        position(node_keys(nodes), successor) < nodes.len() ==> node_keys(
            connected_nodes(nodes, edge, kind, successor),
        ) == node_keys(nodes),
        position(node_keys(nodes), successor) < nodes.len() && node_keys_distinct(nodes)
            ==> node_keys_distinct(connected_nodes(nodes, edge, kind, successor)),
{
    crate::text::lemma_position(edge_keys(edges), edge.id@);
    crate::text::lemma_position(node_keys(nodes), successor);
    crate::text::lemma_position(node_keys(nodes), edge.head_vertex.node_id@);
    let at = position(edge_keys(edges), edge.id@);
    let out = with_edge(edges, edge);
    if edge_keys_distinct(edges) {
        assert forall|i: int, j: int| 0 <= i < j < out.len() implies (#[trigger] out[i]).0 != (
        #[trigger] out[j]).0 by {
            if at < edges.len() {
                assert(edge_keys(edges)[at] == edge.id@);
                assert(out[i].0 == edges[i].0 && out[j].0 == edges[j].0);
            } else {
                if j == edges.len() {
                    assert(edge_keys(edges)[i] != edge.id@);
                }
            }
        }
    }
    if position(node_keys(nodes), successor) < nodes.len() {
        let linked = connected_nodes(nodes, edge, kind, successor);
        let s = position(node_keys(nodes), successor);
        let h = position(node_keys(nodes), edge.head_vertex.node_id@);
        assert(node_keys(nodes)[s] == successor);
        if h < nodes.len() {
            assert(node_keys(nodes)[h] == edge.head_vertex.node_id@);
        }
        assert(node_keys(linked) =~= node_keys(nodes));
        if node_keys_distinct(nodes) {
            assert forall|i: int, j: int| 0 <= i < j < linked.len() implies (
            #[trigger] linked[i]).0 != (#[trigger] linked[j]).0 by {
                assert(node_keys(linked)[i] == node_keys(nodes)[i]);
                assert(node_keys(linked)[j] == node_keys(nodes)[j]);
                assert(nodes[i].0 != nodes[j].0);
            }
        }
    }
}

/// The place of the first node that has the key `id`.
fn find_node<N, O>(nodes: &Vec<(String, SchematicNode<N, O>)>, id: &str) -> (at: usize)
    ensures
        at == position(node_keys(node_views(nodes@)), id@),
        at <= nodes@.len(),
        at < nodes@.len() ==> nodes@[at as int].0@ == id@,
{
    let ghost keys = node_keys(node_views(nodes@));
    let mut at: usize = 0;
    while at < nodes.len() && !str_eq(nodes[at].0.as_str(), id)
        invariant
            0 <= at <= nodes@.len(),
            keys == node_keys(node_views(nodes@)),
            forall|j: int| 0 <= j < at ==> keys[j] != id@,
        decreases nodes@.len() - at,
    {
        at += 1;
    }
    proof {
        lemma_position_is(keys, id@, at as int);
    }
    at
}

/// The views of the values of a map under the views of their keys.
pub open spec fn keyed_views<V>(map: Seq<(String, V)>) -> Seq<(Seq<char>, V)> {
    Seq::new(map.len(), |i: int| (map[i].0@, map[i].1))
}

/// The keys of a map, in their order.
pub open spec fn keys_of<V>(map: Seq<(Seq<char>, V)>) -> Seq<Seq<char>> {
    Seq::new(map.len(), |i: int| map[i].0)
}

/// The map with `value` under `key`: in the place of the value that the key had, or at the
/// end where the map did not have the key.
pub open spec fn with_keyed<V>(map: Seq<(Seq<char>, V)>, key: Seq<char>, value: V) -> Seq<
    (Seq<char>, V),
> {
    let at = position(keys_of(map), key);
    if at < map.len() {
        map.update(at, (key, value))
    } else {
        map.push((key, value))
    }
}

/// Puts `value` under `key`: in the place of the value that the key had, or at the end where
/// the map did not have the key.
pub fn insert_keyed<V>(map: &mut Vec<(String, V)>, key: String, value: V)
    ensures
        keyed_views(final(map)@) == with_keyed(keyed_views(old(map)@), key@, value),
{
    let ghost keys = keys_of(keyed_views(map@));
    let mut at: usize = 0;
    while at < map.len() && !str_eq(map[at].0.as_str(), key.as_str())
        invariant
            0 <= at <= map@.len(),
            map@ == old(map)@,
            keys == keys_of(keyed_views(map@)),
            forall|j: int| 0 <= j < at ==> keys[j] != key@,
        decreases map@.len() - at,
    {
        at += 1;
    }
    proof {
        lemma_position_is(keys, key@, at as int);
    }
    if at < map.len() {
        map[at] = (key, value);
        assert(keyed_views(map@) =~= with_keyed(keyed_views(old(map)@), key@, value));
    } else {
        map.push((key, value));
        assert(keyed_views(map@) =~= with_keyed(keyed_views(old(map)@), key@, value));
    }
}

/// Puts `edge` under the key of its id: in the place of the edge that had the key, or at the
/// end where none had it.
fn insert_edge(edges: &mut Vec<(String, Edge)>, edge: Edge)
    ensures
        edge_views(final(edges)@) == with_edge(edge_views(old(edges)@), edge),
{
    let key = edge.id.clone();
    insert_keyed(edges, key, edge);
    proof {
        assert(keyed_views(old(edges)@) =~= edge_views(old(edges)@));
        assert(keyed_views(edges@) =~= edge_views(edges@));
        assert(keys_of(edge_views(old(edges)@)) =~= edge_keys(edge_views(old(edges)@)));
    }
}

impl<N, O> Schematic<N, O> {
    /// Whether the schematic has a node under the key `node_id`.
    pub fn has_node(&self, node_id: &str) -> (has: bool)
        ensures
            has == (position(node_keys(self@.nodes), node_id@) < self@.nodes.len()),
    {
        find_node(&self.nodes, node_id) < self.nodes.len()
    }

    /// Records an edge of the kind `kind` that was found for the node `successor_node_id`.
    ///
    /// The edge is put among the edges under its id. The node gets the tail of the edge as a
    /// predecessor. Where the head of the edge is another node of the schematic, that node
    /// gets the head of the edge as a successor.
    ///
    /// Fails with `MissingNode` where the schematic has no node `successor_node_id`; the
    /// edge has then been put among the edges, and the nodes are as they were.
    pub fn record_edge(&mut self, edge: Edge, kind: &str, successor_node_id: &str) -> (r: Result<
        (),
        SchematicError,
    >)
        ensures
            final(self)@.edges == with_edge(old(self)@.edges, edge),
            position(node_keys(old(self)@.nodes), successor_node_id@) < old(self)@.nodes.len() ==> {
                &&& r is Ok
                &&& final(self)@.nodes == connected_nodes(
                    old(self)@.nodes,
                    edge,
                    kind@,
                    successor_node_id@,
                )
            },
            position(node_keys(old(self)@.nodes), successor_node_id@) >= old(self)@.nodes.len()
                ==> {
                &&& r == Err::<(), SchematicError>(SchematicError::MissingNode)
                &&& final(self)@.nodes == old(self)@.nodes
            },
            old(self).wf() ==> final(self).wf(),
    {
        proof {
            lemma_recorded_keys(
                old(self)@.nodes,
                old(self)@.edges,
                edge,
                kind@,
                successor_node_id@,
            );
        }
        let ghost old_nodes = old(self)@.nodes;
        let tail = ConnectionEdge {
            edge_id: edge.id.clone(),
            node_id: edge.tail_vertex.node_id.clone(),
            socket_id: edge.tail_vertex.socket.clone(),
        };
        let head = ConnectionEdge {
            edge_id: edge.id.clone(),
            node_id: edge.head_vertex.node_id.clone(),
            socket_id: edge.head_vertex.socket.clone(),
        };
        let head_node_id = edge.head_vertex.node_id.clone();
        assert(tail == tail_connection(edge));
        assert(head == head_connection(edge));
        insert_edge(&mut self.edges, edge);

        let at = find_node(&self.nodes, successor_node_id);
        if at >= self.nodes.len() {
            return Err(SchematicError::MissingNode);
        }
        // Add a predecessors entry for the edge
        let ghost before = self.nodes@;
        add_connection(&mut self.nodes[at].1.connections.predecessors, kind, tail);
        proof {
            let first = old_nodes.update(
                at as int,
                (successor_node_id@, with_predecessor(old_nodes[at as int].1, kind@, tail)),
            );
            assert(self.nodes@.len() == before.len());
            assert forall|j: int| 0 <= j < before.len() implies node_views(self.nodes@)[j]
                == first[j] by {
                if j != at {
                    assert(self.nodes@[j] == before[j]);
                } else {
                    assert(self.nodes@[j].0 == before[j].0);
                    assert(self.nodes@[j].1.node == before[j].1.node);
                    assert(self.nodes@[j].1.sockets == before[j].1.sockets);
                    assert(self.nodes@[j].1.object == before[j].1.object);
                    assert(self.nodes@[j].1.connections.successors
                        == before[j].1.connections.successors);
                }
            }
            assert(node_views(self.nodes@) =~= first);
        }
        if !str_eq(head_node_id.as_str(), successor_node_id) {
            let ghost middle = self.nodes@;
            let head_at = find_node(&self.nodes, head_node_id.as_str());
            proof {
                assert(node_keys(node_views(middle)) =~= node_keys(old_nodes));
            }
            if head_at < self.nodes.len() {
                add_connection(&mut self.nodes[head_at].1.connections.successors, kind, head);
                proof {
                    let first = node_views(middle);
                    let second = first.update(
                        head_at as int,
                        (head_node_id@, with_successor(first[head_at as int].1, kind@, head)),
                    );
                    assert(self.nodes@.len() == middle.len());
                    assert forall|j: int| 0 <= j < middle.len() implies node_views(
                        self.nodes@,
                    )[j] == second[j] by {
                        if j != head_at {
                            assert(self.nodes@[j] == middle[j]);
                        } else {
                            assert(self.nodes@[j].0 == middle[j].0);
                            assert(self.nodes@[j].1.node == middle[j].1.node);
                            assert(self.nodes@[j].1.sockets == middle[j].1.sockets);
                            assert(self.nodes@[j].1.object == middle[j].1.object);
                            assert(self.nodes@[j].1.connections.predecessors
                                == middle[j].1.connections.predecessors);
                        }
                    }
                    assert(node_views(self.nodes@) =~= second);
                }
            }
        }
        Ok(())
    }

    /// No key stands twice among the nodes, nor among the edges.
    pub open spec fn wf(&self) -> bool {
        &&& node_keys_distinct(self@.nodes)
        &&& edge_keys_distinct(self@.edges)
    }

    /// Prunes the node `prune_node_id` from the schematic.
    ///
    /// Its entry is removed; so is each connection that refers to it, each group of
    /// connections that is then empty, and each edge that leads to it or leaves it. The rest
    /// stays, in its order.
    pub fn prune_node(&mut self, prune_node_id: &str)
        ensures
            final(self)@ == pruned_schematic(old(self)@, prune_node_id@),
            old(self).wf() ==> final(self).wf(),
    {
        proof {
            lemma_pruned_nodes(old(self)@.nodes, prune_node_id@);
            lemma_pruned_edges(old(self)@.edges, prune_node_id@);
        }
        // Remove the entry of the node, and the connections that refer to it
        prune_nodes(&mut self.nodes, prune_node_id);

        // Remove the edges whose tail or head is the node
        prune_edges(&mut self.edges, prune_node_id);
    }
}

} // verus!
