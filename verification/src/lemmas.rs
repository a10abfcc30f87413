//! Supporting proofs about the transition graph: how recording, forgetting
//! and folding in a message change nodes, edges and weights.

use vstd::prelude::*;
use crate::model::{
    bounded, bump, closed, closed_but, edge_at, edges_ok, edges_without, fan, forget, has_edge,
    has_node, ingest, node_at, path, record, record_path, rooted, total, weight, weight_in,
    well_formed, Edge, Node,
};
use crate::token::Symbol;
use crate::words::words;

verus! {

/// In well-formed edges the position of a destination is unique.
pub proof fn lemma_edge_at(edges: Seq<Edge>, j: int)
    requires
        edges_ok(edges),
        0 <= j < edges.len(),
    ensures
        has_edge(edges, edges[j].to),
        edge_at(edges, edges[j].to) == j,
        weight_in(edges, edges[j].to) == edges[j].weight,
{
    let k = edge_at(edges, edges[j].to);
    assert(0 <= k < edges.len() && edges[k].to == edges[j].to);
    if k < j {
        assert(edges[k].to != edges[j].to);
    } else if j < k {
        assert(edges[j].to != edges[k].to);
    }
}

/// In a well-formed graph the position of a source is unique.
pub proof fn lemma_node_at(g: Seq<Node>, i: int)
    requires
        well_formed(g),
        0 <= i < g.len(),
    ensures
        has_node(g, g[i].from),
        node_at(g, g[i].from) == i,
        fan(g, g[i].from) == g[i].edges,
{
    let k = node_at(g, g[i].from);
    assert(0 <= k < g.len() && g[k].from == g[i].from);
    if k < i {
        assert(g[k].from != g[i].from);
    } else if i < k {
        assert(g[i].from != g[k].from);
    }
}

/// The sum of the weights grows by the weight of an edge appended.
pub proof fn lemma_total_push(edges: Seq<Edge>, e: Edge)
    ensures
        total(edges.push(e)) == total(edges) + e.weight,
{
    assert(edges.push(e).drop_last() =~= edges);
}

/// Replacing one edge changes the sum by the difference of the weights.
pub proof fn lemma_total_update(edges: Seq<Edge>, j: int, e: Edge)
    requires
        0 <= j < edges.len(),
    ensures
        total(edges.update(j, e)) + edges[j].weight == total(edges) + e.weight,
    decreases edges.len(),
{
    let after = edges.update(j, e);
    if j == edges.len() - 1 {
        assert(after.drop_last() =~= edges.drop_last());
    } else {
        assert(after.drop_last() =~= edges.drop_last().update(j, e));
        lemma_total_update(edges.drop_last(), j, e);
    }
}

/// One more observation keeps the edges in order, raises the weight of its
/// destination by one and leaves every other weight as it was.
pub proof fn lemma_bump(edges: Seq<Edge>, to: Symbol)
    requires
        edges_ok(edges),
    ensures
        edges_ok(bump(edges, to)),
        total(bump(edges, to)) == total(edges) + 1,
        forall|d: Symbol|
            weight_in(bump(edges, to), d) == #[trigger] weight_in(edges, d) + (if d == to {
                1nat
            } else {
                0nat
            }),
{
    let after = bump(edges, to);
    if has_edge(edges, to) {
        let j = edge_at(edges, to);
        lemma_total_update(edges, j, Edge { to: to, weight: edges[j].weight + 1 });
        assert(forall|k: int| 0 <= k < edges.len() ==> (#[trigger] after[k]).to == edges[k].to);
    } else {
        lemma_total_push(edges, Edge { to: to, weight: 1 });
    }
    assert(edges_ok(after));
    assert forall|d: Symbol|
        weight_in(after, d) == #[trigger] weight_in(edges, d) + (if d == to {
            1nat
        } else {
            0nat
        }) by {
        if has_edge(edges, d) {
            let k = edge_at(edges, d);
            lemma_edge_at(edges, k);
            assert(after[k].to == d);
            lemma_edge_at(after, k);
        } else if d == to {
            let k = edges.len() as int;
            assert(after[k].to == d);
            lemma_edge_at(after, k);
        } else {
            if has_edge(after, d) {
                let k = edge_at(after, d);
                assert(after[k].to == d);
                assert(edges[k].to == d);
            }
        }
    }
}

/// One more observation keeps the graph well formed, raises the weight of
/// its transition by one and leaves every other weight as it was.
pub proof fn lemma_record(g: Seq<Node>, from: Symbol, to: Symbol)
    requires
        well_formed(g),
    ensures
        well_formed(record(g, from, to)),
        forall|s: Symbol, d: Symbol|
            weight(record(g, from, to), s, d) == #[trigger] weight(g, s, d) + (if s == from && d
                == to {
                1nat
            } else {
                0nat
            }),
        forall|s: Symbol|
            total(fan(record(g, from, to), s)) == #[trigger] total(fan(g, s)) + (if s == from {
                1nat
            } else {
                0nat
            }),
        forall|s: Symbol| has_node(record(g, from, to), s) <==> #[trigger] has_node(g, s) || s == from,
{
    let after = record(g, from, to);
    lemma_record_fan(g, from, to);
    assert forall|s: Symbol, d: Symbol|
        weight(after, s, d) == #[trigger] weight(g, s, d) + (if s == from && d == to {
            1nat
        } else {
            0nat
        }) by {
        if s == from {
            lemma_bump(fan(g, from), to);
            assert(weight_in(bump(fan(g, from), to), d) == weight_in(fan(g, from), d) + (if d
                == to {
                1nat
            } else {
                0nat
            }));
        }
    }
    assert forall|s: Symbol|
        total(fan(after, s)) == #[trigger] total(fan(g, s)) + (if s == from {
            1nat
        } else {
            0nat
        }) by {
        if s == from {
            lemma_bump(fan(g, from), to);
        }
    }
}

/// One more observation replaces the edges of its source by the bumped
/// ones and leaves every other node as it was.
pub proof fn lemma_record_fan(g: Seq<Node>, from: Symbol, to: Symbol)
    requires
        well_formed(g),
    ensures
        well_formed(record(g, from, to)),
        fan(record(g, from, to), from) == bump(fan(g, from), to),
        edges_ok(fan(g, from)),
        forall|s: Symbol| s != from ==> #[trigger] fan(record(g, from, to), s) == fan(g, s),
        forall|s: Symbol| has_node(record(g, from, to), s) <==> #[trigger] has_node(g, s) || s == from,
{
    let after = record(g, from, to);
    let i = if has_node(g, from) {
        node_at(g, from)
    } else {
        g.len() as int
    };
    if has_node(g, from) {
        lemma_bump(g[i].edges, to);
    } else {
        lemma_bump(Seq::empty(), to);
    }
    assert(after[i].from == from);
    assert(forall|k: int| 0 <= k < g.len() ==> (#[trigger] after[k]).from == g[k].from);
    assert(well_formed(after));
    lemma_node_at(after, i);
    assert forall|s: Symbol| s != from implies #[trigger] fan(after, s) == fan(g, s) by {
        if has_node(g, s) {
            let k = node_at(g, s);
            lemma_node_at(g, k);
            assert(after[k] == g[k]);
            lemma_node_at(after, k);
        } else if has_node(after, s) {
            let k = node_at(after, s);
            assert(after[k].from == s);
            assert(g[k].from == s);
        }
    }
    assert forall|s: Symbol| has_node(after, s) <==> #[trigger] has_node(g, s) || s == from by {
        if has_node(g, s) {
            let k = node_at(g, s);
            assert(after[k].from == s);
        }
        if has_node(after, s) && s != from {
            let k = node_at(after, s);
            assert(after[k].from == s);
            assert(g[k].from == s);
        }
    }
}

/// What a last edge adds to well-formed edges.
pub proof fn lemma_last_edge(edges: Seq<Edge>)
    requires
        edges_ok(edges),
        edges.len() > 0,
    ensures
        edges_ok(edges.drop_last()),
        !has_edge(edges.drop_last(), edges.last().to),
        forall|d: Symbol|
            #[trigger] has_edge(edges, d) <==> has_edge(edges.drop_last(), d) || d
                == edges.last().to,
        forall|d: Symbol|
            #[trigger] weight_in(edges, d) == if d == edges.last().to {
                edges.last().weight
            } else {
                weight_in(edges.drop_last(), d)
            },
{
    let init = edges.drop_last();
    let n = init.len() as int;
    assert(forall|k: int| 0 <= k < n ==> (#[trigger] init[k]) == edges[k]);
    assert(edges_ok(init));
    if has_edge(init, edges.last().to) {
        let k = edge_at(init, edges.last().to);
        assert(edges[k].to != edges[n].to);
    }
    assert forall|d: Symbol|
        (has_edge(edges, d) <==> has_edge(init, d) || d == edges.last().to) && (weight_in(
            edges,
            d,
        ) == if d == edges.last().to {
            edges.last().weight
        } else {
            weight_in(init, d)
        }) by {
        if d == edges.last().to {
            lemma_edge_at(edges, n);
        } else if has_edge(init, d) {
            let k = edge_at(init, d);
            lemma_edge_at(init, k);
            assert(edges[k].to == d);
            lemma_edge_at(edges, k);
        } else if has_edge(edges, d) {
            let k = edge_at(edges, d);
            assert(init[k].to == d);
        }
    }
}

/// Dropping the edges to `to` keeps the rest in order: the destination
/// `to` is gone, every other destination keeps its weight, and the sum of
/// the weights does not grow.
pub proof fn lemma_edges_without(edges: Seq<Edge>, to: Symbol)
    requires
        edges_ok(edges),
    ensures
        edges_ok(edges_without(edges, to)),
        total(edges_without(edges, to)) <= total(edges),
        forall|d: Symbol|
            #[trigger] has_edge(edges_without(edges, to), d) <==> has_edge(edges, d) && d != to,
        forall|d: Symbol|
            #[trigger] weight_in(edges_without(edges, to), d) == if d == to {
                0
            } else {
                weight_in(edges, d)
            },
    decreases edges.len(),
{
    let r = edges_without(edges, to);
    if edges.len() > 0 {
        let init = edges.drop_last();
        let rest = edges_without(init, to);
        lemma_last_edge(edges);
        lemma_edges_without(init, to);
        if edges.last().to != to {
            assert(r.drop_last() =~= rest);
            assert(r.last() == edges.last());
            assert(edges_ok(r)) by {
                assert(!has_edge(rest, edges.last().to));
                assert(forall|k: int| 0 <= k < rest.len() ==> (#[trigger] r[k]) == rest[k]);
                assert forall|a: int, b: int| 0 <= a < b < r.len() implies (#[trigger] r[a]).to != (
                #[trigger] r[b]).to by {
                    if b == rest.len() {
                        assert(rest[a].to == r[a].to);
                    } else {
                        assert(rest[a].to != rest[b].to);
                    }
                }
            }
            lemma_last_edge(r);
        }
    }
}

/// What a last node adds to a well-formed graph.
pub proof fn lemma_last_node(g: Seq<Node>)
    requires
        well_formed(g),
        g.len() > 0,
    ensures
        well_formed(g.drop_last()),
        !has_node(g.drop_last(), g.last().from),
        forall|s: Symbol|
            #[trigger] has_node(g, s) <==> has_node(g.drop_last(), s) || s == g.last().from,
        forall|s: Symbol|
            #[trigger] fan(g, s) == if s == g.last().from {
                g.last().edges
            } else {
                fan(g.drop_last(), s)
            },
{
    let init = g.drop_last();
    let n = init.len() as int;
    assert(forall|k: int| 0 <= k < n ==> (#[trigger] init[k]) == g[k]);
    assert(well_formed(init));
    if has_node(init, g.last().from) {
        let k = node_at(init, g.last().from);
        assert(g[k].from != g[n].from);
    }
    assert forall|s: Symbol|
        (has_node(g, s) <==> has_node(init, s) || s == g.last().from) && (fan(g, s) == if s
            == g.last().from {
            g.last().edges
        } else {
            fan(init, s)
        }) by {
        if s == g.last().from {
            lemma_node_at(g, n);
        } else if has_node(init, s) {
            let k = node_at(init, s);
            lemma_node_at(init, k);
            assert(g[k].from == s);
            lemma_node_at(g, k);
        } else if has_node(g, s) {
            let k = node_at(g, s);
            assert(init[k].from == s);
        }
    }
}

/// Forgetting `w` keeps the graph well formed: `w` is no source any more,
/// every other source keeps its node, and each node keeps its edges but
/// those to `w`.
pub proof fn lemma_forget(g: Seq<Node>, w: Symbol)
    requires
        well_formed(g),
    ensures
        well_formed(forget(g, w)),
        forall|s: Symbol| #[trigger] has_node(forget(g, w), s) <==> has_node(g, s) && s != w,
        forall|s: Symbol|
            #[trigger] fan(forget(g, w), s) == if s == w {
                Seq::empty()
            } else {
                edges_without(fan(g, s), w)
            },
    decreases g.len(),
{
    let r = forget(g, w);
    if g.len() > 0 {
        let init = g.drop_last();
        let rest = forget(init, w);
        lemma_last_node(g);
        lemma_forget(init, w);
        if g.last().from != w {
            assert(r.drop_last() =~= rest);
            lemma_edges_without(g.last().edges, w);
            assert(well_formed(r)) by {
                assert(!has_node(rest, g.last().from));
                assert(forall|k: int| 0 <= k < rest.len() ==> (#[trigger] r[k]) == rest[k]);
                assert forall|a: int, b: int| 0 <= a < b < r.len() implies (#[trigger] r[a]).from
                    != (#[trigger] r[b]).from by {
                    if b == rest.len() {
                        assert(rest[a].from == r[a].from);
                    } else {
                        assert(rest[a].from != rest[b].from);
                    }
                }
                assert forall|i: int| 0 <= i < r.len() implies edges_ok((#[trigger] r[i]).edges) by {
                    if i < rest.len() {
                        assert(edges_ok(rest[i].edges));
                    }
                }
            }
            lemma_last_node(r);
        }
    }
    assert(edges_without(Seq::<Edge>::empty(), w) =~= Seq::<Edge>::empty());
}

/// Recording a transition out of the one word that may still lack a node
/// gives that word its node; its destination is then the one that may
/// lack a node.
pub proof fn lemma_record_closed(g: Seq<Node>, from: Symbol, to: Symbol)
    requires
        well_formed(g),
        closed_but(g, from),
    ensures
        closed_but(record(g, from, to), to),
{
    let after = record(g, from, to);
    lemma_record(g, from, to);
    assert forall|s: Symbol, d: Symbol| #[trigger]
        weight(after, s, d) > 0 && d is Word && d != to implies has_node(after, d) by {
        assert(weight(after, s, d) == weight(g, s, d) + (if s == from && d == to {
            1nat
        } else {
            0nat
        }));
        assert(has_node(after, d) <==> has_node(g, d) || d == from);
    }
}

/// Recording the transitions of a path that starts at the boundary keeps
/// the graph well formed and closed but for the symbol at which the path
/// stands, and makes the boundary a source.
pub proof fn lemma_record_path_closed(g: Seq<Node>, p: Seq<Symbol>, n: nat)
    requires
        well_formed(g),
        closed(g),
        rooted(g),
        p.len() > n,
        p[0] == Symbol::Boundary,
    ensures
        well_formed(record_path(g, p, n)),
        closed_but(record_path(g, p, n), p[n as int]),
        rooted(record_path(g, p, n)),
        n > 0 ==> has_node(record_path(g, p, n), Symbol::Boundary),
        record_path(g, p, n).len() >= g.len(),
    decreases n,
{
    if n > 0 {
        let before = record_path(g, p, (n - 1) as nat);
        lemma_record_path_closed(g, p, (n - 1) as nat);
        lemma_record(before, p[n - 1], p[n as int]);
        lemma_record_closed(before, p[n - 1], p[n as int]);
        let after = record(before, p[n - 1], p[n as int]);
        assert(has_node(after, Symbol::Boundary) <==> has_node(before, Symbol::Boundary)
            || Symbol::Boundary == p[n - 1]);
    }
}

/// Folding a message into a closed graph leaves it closed, with the
/// boundary as a source.
pub proof fn lemma_ingest_closed(g: Seq<Node>, text: Seq<char>)
    requires
        well_formed(g),
        closed(g),
        rooted(g),
    ensures
        well_formed(ingest(g, text)),
        closed(ingest(g, text)),
        has_node(ingest(g, text), Symbol::Boundary),
{
    lemma_record_path_closed(g, path(words(text)), words(text).len() + 1);
}

/// Forgetting a word leaves a closed graph closed, and the boundary a
/// source where it was one.
pub proof fn lemma_forget_closed(g: Seq<Node>, word: Seq<char>)
    requires
        well_formed(g),
        closed(g),
    ensures
        closed(forget(g, Symbol::Word(word))),
        has_node(g, Symbol::Boundary) ==> has_node(forget(g, Symbol::Word(word)), Symbol::Boundary),
{
    let w = Symbol::Word(word);
    let after = forget(g, w);
    lemma_forget(g, w);
    assert forall|s: Symbol, d: Symbol| #[trigger]
        weight(after, s, d) > 0 && d is Word implies has_node(after, d) by {
        if s != w {
            if has_node(g, s) {
                let k = node_at(g, s);
                assert(edges_ok(g[k].edges));
            }
            lemma_edges_without(fan(g, s), w);
            assert(weight(g, s, d) > 0);
        }
    }
}

/// No single weight exceeds the sum of all of them.
pub proof fn lemma_weight_le_total(edges: Seq<Edge>, j: int)
    requires
        0 <= j < edges.len(),
    ensures
        edges[j].weight <= total(edges),
    decreases edges.len(),
{
    if j < edges.len() - 1 {
        lemma_weight_le_total(edges.drop_last(), j);
    }
}

/// Forgetting a symbol lets no node's weights sum to more than before.
pub proof fn lemma_forget_bounded(g: Seq<Node>, w: Symbol, limit: nat)
    requires
        well_formed(g),
        bounded(g, limit),
    ensures
        bounded(forget(g, w), limit),
{
    let r = forget(g, w);
    lemma_forget(g, w);
    assert forall|i: int| 0 <= i < r.len() implies total((#[trigger] r[i]).edges) <= limit by {
        let s = r[i].from;
        lemma_node_at(r, i);
        assert(has_node(g, s) && s != w);
        let k = node_at(g, s);
        lemma_node_at(g, k);
        assert(total(g[k].edges) <= limit);
        lemma_edges_without(g[k].edges, w);
        assert(fan(r, s) == edges_without(fan(g, s), w));
    }
}

/// The weights of a graph in which a symbol was forgotten.
pub proof fn lemma_forget_weights(g: Seq<Node>, w: Symbol, s: Symbol, d: Symbol)
    requires
        well_formed(g),
    ensures
        well_formed(forget(g, w)),
        has_node(forget(g, w), s) <==> has_node(g, s) && s != w,
        weight(forget(g, w), s, d) == if s == w || d == w {
            0
        } else {
            weight(g, s, d)
        },
{
    lemma_forget(g, w);
    if s == w {
        assert(weight_in(Seq::<Edge>::empty(), d) == 0);
    } else {
        if has_node(g, s) {
            let k = node_at(g, s);
            assert(edges_ok(g[k].edges));
        } else {
            assert(edges_ok(Seq::<Edge>::empty()));
        }
        lemma_edges_without(fan(g, s), w);
    }
}

} // verus!
