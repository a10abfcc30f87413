//! The transition graph as a mathematical value, and the update rule on it.
//!
//! A graph is a sequence of nodes in the order in which their sources were
//! first observed; a node lists its outgoing edges in the order in which the
//! destinations were first observed. The order carries no statistical
//! meaning, but sampling scans the edges in it, so it is part of the model.

use vstd::prelude::*;
use crate::token::Symbol;
use crate::words::words;

verus! {

/// A weighted edge to a destination.
pub struct Edge {
    pub to: Symbol,
    pub weight: nat,
}

/// A source together with its outgoing edges.
pub struct Node {
    pub from: Symbol,
    pub edges: Seq<Edge>,
}

/// Whether some edge leads to `to`.
pub open spec fn has_edge(edges: Seq<Edge>, to: Symbol) -> bool {
    exists|j: int| 0 <= j < edges.len() && (#[trigger] edges[j]).to == to
}

/// The position of an edge that leads to `to`, where there is one.
pub open spec fn edge_at(edges: Seq<Edge>, to: Symbol) -> int {
    choose|j: int| 0 <= j < edges.len() && (#[trigger] edges[j]).to == to
}

/// The weight of the edge to `to`; zero where there is none.
pub open spec fn weight_in(edges: Seq<Edge>, to: Symbol) -> nat {
    if has_edge(edges, to) {
        edges[edge_at(edges, to)].weight
    } else {
        0
    }
}

/// Whether `from` is a source of the graph.
pub open spec fn has_node(g: Seq<Node>, from: Symbol) -> bool {
    exists|i: int| 0 <= i < g.len() && (#[trigger] g[i]).from == from
}

/// The position of the node of `from`, where there is one.
pub open spec fn node_at(g: Seq<Node>, from: Symbol) -> int {
    choose|i: int| 0 <= i < g.len() && (#[trigger] g[i]).from == from
}

/// The outgoing edges of `from`; none where `from` is no source.
pub open spec fn fan(g: Seq<Node>, from: Symbol) -> Seq<Edge> {
    if has_node(g, from) {
        g[node_at(g, from)].edges
    } else {
        Seq::empty()
    }
}

/// The weight of the transition `from` → `to`; zero where it was never observed.
pub open spec fn weight(g: Seq<Node>, from: Symbol, to: Symbol) -> nat {
    weight_in(fan(g, from), to)
}

/// The sum of the weights of `edges`.
pub open spec fn total(edges: Seq<Edge>) -> nat
    decreases edges.len(),
{
    if edges.len() == 0 {
        0
    } else {
        total(edges.drop_last()) + edges.last().weight
    }
}

/// No destination occurs twice and every weight is positive.
pub open spec fn edges_ok(edges: Seq<Edge>) -> bool {
    &&& forall|a: int, b: int|
        0 <= a < b < edges.len() ==> (#[trigger] edges[a]).to != (#[trigger] edges[b]).to
    &&& forall|j: int| 0 <= j < edges.len() ==> (#[trigger] edges[j]).weight >= 1
}

/// No source occurs twice and every node's edges are in order.
pub open spec fn well_formed(g: Seq<Node>) -> bool {
    &&& forall|a: int, b: int|
        0 <= a < b < g.len() ==> (#[trigger] g[a]).from != (#[trigger] g[b]).from
    &&& forall|i: int| 0 <= i < g.len() ==> edges_ok((#[trigger] g[i]).edges)
}

/// The edges after one more observation of the destination `to`.
pub open spec fn bump(edges: Seq<Edge>, to: Symbol) -> Seq<Edge> {
    if has_edge(edges, to) {
        let j = edge_at(edges, to);
        edges.update(j, Edge { to: to, weight: edges[j].weight + 1 })
    } else {
        edges.push(Edge { to: to, weight: 1 })
    }
}

/// The graph after one more observation of the transition `from` → `to`.
pub open spec fn record(g: Seq<Node>, from: Symbol, to: Symbol) -> Seq<Node> {
    if has_node(g, from) {
        let i = node_at(g, from);
        g.update(i, Node { from: from, edges: bump(g[i].edges, to) })
    } else {
        g.push(Node { from: from, edges: bump(Seq::empty(), to) })
    }
}

/// The symbols of a message's path through the graph: a boundary, the
/// words in order, a boundary.
pub open spec fn path(ws: Seq<Seq<char>>) -> Seq<Symbol> {
    seq![Symbol::Boundary] + ws.map_values(|w: Seq<char>| Symbol::Word(w)) + seq![Symbol::Boundary]
}

/// The graph after the first `n` transitions of `p` were recorded, one by one.
pub open spec fn record_path(g: Seq<Node>, p: Seq<Symbol>, n: nat) -> Seq<Node>
    decreases n,
{
    if n == 0 {
        g
    } else {
        record(record_path(g, p, (n - 1) as nat), p[n - 1], p[n as int])
    }
}

/// The graph after a message was folded into it: every transition of the
/// message's path recorded once, from first to last.
pub open spec fn ingest(g: Seq<Node>, text: Seq<char>) -> Seq<Node> {
    record_path(g, path(words(text)), words(text).len() + 1)
}

/// How often the transition `s` → `d` occurs among the first `n`
/// transitions of the path `p`.
pub open spec fn occurrences(p: Seq<Symbol>, n: nat, s: Symbol, d: Symbol) -> nat
    decreases n,
{
    if n == 0 {
        0
    } else {
        occurrences(p, (n - 1) as nat, s, d) + if p[n - 1] == s && p[n as int] == d {
            1nat
        } else {
            0nat
        }
    }
}

/// How often the transition `s` → `d` occurs in the path of a message.
pub open spec fn transitions(text: Seq<char>, s: Symbol, d: Symbol) -> nat {
    occurrences(path(words(text)), words(text).len() + 1, s, d)
}

/// The edges that do not lead to `to`, in their order.
pub open spec fn edges_without(edges: Seq<Edge>, to: Symbol) -> Seq<Edge>
    decreases edges.len(),
{
    if edges.len() == 0 {
        edges
    } else {
        let rest = edges_without(edges.drop_last(), to);
        if edges.last().to == to {
            rest
        } else {
            rest.push(edges.last())
        }
    }
}

/// The graph with the symbol `w` forgotten: its node is gone, and so is
/// every edge that led to it. What remains keeps its order and its weights.
pub open spec fn forget(g: Seq<Node>, w: Symbol) -> Seq<Node>
    decreases g.len(),
{
    if g.len() == 0 {
        g
    } else {
        let rest = forget(g.drop_last(), w);
        if g.last().from == w {
            rest
        } else {
            rest.push(Node { from: g.last().from, edges: edges_without(g.last().edges, w) })
        }
    }
}

/// The graph after a request to prune `word`: unchanged where the word
/// holds a space or is no source, else with the word forgotten.
pub open spec fn prune(g: Seq<Node>, word: Seq<char>) -> Seq<Node> {
    if word.contains(' ') || !has_node(g, Symbol::Word(word)) {
        g
    } else {
        forget(g, Symbol::Word(word))
    }
}

/// Every word that a transition leads to is a source itself, except
/// possibly `pending`.
pub open spec fn closed_but(g: Seq<Node>, pending: Symbol) -> bool {
    forall|s: Symbol, d: Symbol|
        #[trigger] weight(g, s, d) > 0 && d is Word && d != pending ==> has_node(g, d)
}

/// Every word that a transition leads to is a source itself: a walk that
/// follows transitions from a source never leaves the sources.
pub open spec fn closed(g: Seq<Node>) -> bool {
    closed_but(g, Symbol::Boundary)
}

/// The boundary is a source, unless the graph is empty.
pub open spec fn rooted(g: Seq<Node>) -> bool {
    g.len() > 0 ==> has_node(g, Symbol::Boundary)
}

/// No node's weights sum to more than `limit`.
pub open spec fn bounded(g: Seq<Node>, limit: nat) -> bool {
    forall|i: int| 0 <= i < g.len() ==> total((#[trigger] g[i]).edges) <= limit
}

} // verus!
