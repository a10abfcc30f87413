//! Weighted choice among the edges of a node, and the walk it drives.

use vstd::prelude::*;
use crate::model::{fan, total, Edge, Node};
use crate::token::Symbol;

verus! {

/// The running total of the weights up to and including position `j`.
pub open spec fn running(edges: Seq<Edge>, j: int) -> nat {
    total(edges.take(j + 1))
}

/// Whether `j` is the first position at which the running total of the
/// weights is at least `r`.
pub open spec fn is_pick(edges: Seq<Edge>, r: nat, j: int) -> bool {
    &&& 0 <= j < edges.len()
    &&& running(edges, j) >= r
    &&& forall|k: int| 0 <= k < j ==> #[trigger] running(edges, k) < r
}

/// The first position at which the running total of the weights is at
/// least `r`; there is one whenever `r` is at most the sum of the weights
/// and there is an edge at all.
pub open spec fn pick(edges: Seq<Edge>, r: nat) -> int {
    choose|j: int| is_pick(edges, r, j)
}

/// The destination that a draw selects among the edges out of `from`: the
/// draw is reduced modulo the sum of the weights, and the pick for that
/// number is taken. None where `from` has no edge to follow.
pub open spec fn chosen(g: Seq<Node>, from: Symbol, draw: usize) -> Option<Symbol> {
    let edges = fan(g, from);
    if total(edges) == 0 {
        None
    } else {
        Some(edges[pick(edges, draw as nat % total(edges))].to)
    }
}

/// A walk under way: where it stands, the words said so far, and whether
/// it has ended.
pub struct Walk {
    pub at: Symbol,
    pub said: Seq<Seq<char>>,
    pub done: bool,
}

/// The walk before its first step: at the boundary, with nothing said.
pub open spec fn start() -> Walk {
    Walk { at: Symbol::Boundary, said: Seq::empty(), done: false }
}

/// The walk after it was handed the symbol `next`, or none: a word is said
/// and becomes the place of the walk; a boundary ends the walk, and so does
/// a place with no edge to follow.
pub open spec fn advance(w: Walk, next: Option<Symbol>) -> Walk {
    match next {
        Some(Symbol::Word(word)) => Walk { at: Symbol::Word(word), said: w.said.push(word), done: false },
        _ => Walk { at: w.at, said: w.said, done: true },
    }
}

/// One step of a walk with the given draw. A walk that has ended stays as it is.
pub open spec fn step(g: Seq<Node>, w: Walk, draw: usize) -> Walk {
    if w.done {
        w
    } else {
        advance(w, chosen(g, w.at, draw))
    }
}

/// The walk from the boundary that takes one step for each draw, in order.
pub open spec fn walk(g: Seq<Node>, draws: Seq<usize>) -> Walk
    decreases draws.len(),
{
    if draws.len() == 0 {
        start()
    } else {
        step(g, walk(g, draws.drop_last()), draws.last())
    }
}

/// The running total never exceeds the sum of all weights, and grows with
/// the position.
pub proof fn lemma_running(edges: Seq<Edge>, j: int)
    requires
        0 <= j < edges.len(),
    ensures
        running(edges, j) == total(edges.take(j)) + edges[j].weight,
        running(edges, j) <= total(edges),
        j == edges.len() - 1 ==> running(edges, j) == total(edges),
    decreases edges.len() - j,
{
    assert(edges.take(j + 1).drop_last() =~= edges.take(j));
    if j == edges.len() - 1 {
        assert(edges.take(j + 1) =~= edges);
    } else {
        lemma_running(edges, j + 1);
    }
}

/// There is at most one pick for a number.
pub proof fn lemma_pick_unique(edges: Seq<Edge>, r: nat, j: int)
    requires
        is_pick(edges, r, j),
    ensures
        pick(edges, r) == j,
{
    let k = pick(edges, r);
    assert(is_pick(edges, r, k));
    if k < j {
        assert(running(edges, k) < r);
    } else if j < k {
        assert(running(edges, j) < r);
    }
}

/// A walk that has ended is not changed by further draws.
pub proof fn lemma_done_stays(g: Seq<Node>, draws: Seq<usize>, n: int)
    requires
        0 <= n <= draws.len(),
        walk(g, draws.take(n)).done,
    ensures
        walk(g, draws) == walk(g, draws.take(n)),
    decreases draws.len() - n,
{
    if n == draws.len() {
        assert(draws.take(n) =~= draws);
    } else {
        assert(draws.take(n + 1).drop_last() =~= draws.take(n));
        lemma_done_stays(g, draws, n + 1);
    }
}

} // verus!
