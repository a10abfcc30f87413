//! What holds of the table's operations for every graph, every message and
//! every sequence of draws: how folding in a message changes the weights,
//! what pruning removes, which edge a number selects, which words a walk can
//! say, and what the words of a message are.

use vstd::prelude::*;
use crate::lemmas::{lemma_edge_at, lemma_forget, lemma_forget_weights, lemma_node_at, lemma_record};
use crate::model::{
    closed, edge_at, edges_ok, fan, has_edge, has_node, ingest, node_at, occurrences, path, prune,
    record, record_path, total, transitions, weight, well_formed, Edge, Node,
};
use crate::sampling::{
    chosen, is_pick, lemma_done_stays, lemma_pick_unique, lemma_running, pick, running, start, walk,
    Walk,
};
use crate::token::Symbol;
use crate::words::{join, pieces, words};

verus! {

/// Recording the first `n` transitions of a path keeps the graph well
/// formed and adds to each weight the number of times its transition occurs
/// among them.
pub proof fn lemma_record_path(g: Seq<Node>, p: Seq<Symbol>, n: nat, s: Symbol, d: Symbol)
    requires
        well_formed(g),
    ensures
        well_formed(record_path(g, p, n)),
        weight(record_path(g, p, n), s, d) == weight(g, s, d) + occurrences(p, n, s, d),
    decreases n,
{
    if n > 0 {
        let before = record_path(g, p, (n - 1) as nat);
        lemma_record_path(g, p, (n - 1) as nat, s, d);
        lemma_record(before, p[n - 1], p[n as int]);
        assert(weight(record(before, p[n - 1], p[n as int]), s, d) == weight(before, s, d) + (
        if s == p[n - 1] && d == p[n as int] {
            1nat
        } else {
            0nat
        }));
    }
}

/// Folding a message into a well-formed graph keeps it well formed and
/// adds to the weight of each transition the number of times the
/// transition occurs in the message's path. No weight ever decreases.
pub proof fn law_ingest_accumulates(g: Seq<Node>, text: Seq<char>, s: Symbol, d: Symbol)
    requires
        well_formed(g),
    ensures
        well_formed(ingest(g, text)),
        weight(ingest(g, text), s, d) == weight(g, s, d) + transitions(text, s, d),
        weight(ingest(g, text), s, d) >= weight(g, s, d),
{
    lemma_record_path(g, path(words(text)), words(text).len() + 1, s, d);
}

/// Folding the same message in twice adds twice what folding it in once
/// adds; into the empty graph, the second time doubles every weight.
pub proof fn law_ingest_twice_doubles(g: Seq<Node>, text: Seq<char>, s: Symbol, d: Symbol)
    requires
        well_formed(g),
    ensures
        weight(ingest(ingest(g, text), text), s, d) - weight(g, s, d) == 2 * (weight(
            ingest(g, text),
            s,
            d,
        ) - weight(g, s, d)),
        g.len() == 0 ==> weight(ingest(ingest(g, text), text), s, d) == 2 * weight(
            ingest(g, text),
            s,
            d,
        ),
{
    law_ingest_accumulates(g, text, s, d);
    law_ingest_accumulates(ingest(g, text), text, s, d);
}

/// The weights after two messages do not depend on the order in which the
/// messages were folded in.
pub proof fn law_ingest_order_irrelevant(
    g: Seq<Node>,
    first: Seq<char>,
    second: Seq<char>,
    s: Symbol,
    d: Symbol,
)
    requires
        well_formed(g),
    ensures
        weight(ingest(ingest(g, first), second), s, d) == weight(
            ingest(ingest(g, second), first),
            s,
            d,
        ),
{
    law_ingest_accumulates(g, first, s, d);
    law_ingest_accumulates(ingest(g, first), second, s, d);
    law_ingest_accumulates(g, second, s, d);
    law_ingest_accumulates(ingest(g, second), first, s, d);
}

/// Pruning a word that holds a space, or that is no source, changes nothing.
pub proof fn law_prune_ignores(g: Seq<Node>, word: Seq<char>)
    requires
        word.contains(' ') || !has_node(g, Symbol::Word(word)),
    ensures
        prune(g, word) == g,
{
}

/// Pruning a source word without a space removes it in both directions:
/// the word is no source any more and no transition leads to it, while
/// every other source stays and every transition between other tokens
/// keeps its weight.
pub proof fn law_prune_forgets(g: Seq<Node>, word: Seq<char>, s: Symbol, d: Symbol)
    requires
        well_formed(g),
        !word.contains(' '),
        has_node(g, Symbol::Word(word)),
    ensures
        well_formed(prune(g, word)),
        !has_node(prune(g, word), Symbol::Word(word)),
        weight(prune(g, word), s, Symbol::Word(word)) == 0,
        weight(prune(g, word), Symbol::Word(word), d) == 0,
        s != Symbol::Word(word) ==> (has_node(prune(g, word), s) <==> has_node(g, s)),
        s != Symbol::Word(word) && d != Symbol::Word(word) ==> weight(prune(g, word), s, d)
            == weight(g, s, d),
{
    let w = Symbol::Word(word);
    lemma_forget_weights(g, w, s, d);
    lemma_forget_weights(g, w, s, w);
    lemma_forget_weights(g, w, w, d);
}

/// Pruning a word a second time changes nothing.
pub proof fn law_prune_idempotent(g: Seq<Node>, word: Seq<char>)
    requires
        well_formed(g),
    ensures
        prune(prune(g, word), word) == prune(g, word),
{
    if !word.contains(' ') && has_node(g, Symbol::Word(word)) {
        lemma_forget(g, Symbol::Word(word));
    }
}

/// Where no position before `n` reaches `r`, a first one from `n` on does.
proof fn lemma_first_reach(edges: Seq<Edge>, r: nat, n: int) -> (j: int)
    requires
        0 <= n < edges.len(),
        r <= total(edges),
        forall|k: int| 0 <= k < n ==> #[trigger] running(edges, k) < r,
    ensures
        is_pick(edges, r, j),
    decreases edges.len() - n,
{
    lemma_running(edges, n);
    if running(edges, n) >= r {
        n
    } else {
        lemma_first_reach(edges, r, n + 1)
    }
}

/// Every number up to the sum of the weights has a pick.
pub proof fn lemma_pick_exists(edges: Seq<Edge>, r: nat)
    requires
        edges.len() > 0,
        r <= total(edges),
    ensures
        is_pick(edges, r, pick(edges, r)),
{
    let j = lemma_first_reach(edges, r, 0);
    assert(is_pick(edges, r, j));
}

/// A number that the first weight reaches selects the first edge, and no
/// other number does.
pub proof fn law_pick_first(edges: Seq<Edge>, r: nat)
    requires
        edges.len() > 0,
    ensures
        r <= edges[0].weight <==> is_pick(edges, r, 0),
        r <= edges[0].weight ==> pick(edges, r) == 0,
{
    lemma_running(edges, 0);
    assert(edges.take(0) =~= Seq::<Edge>::empty());
    if r <= edges[0].weight {
        lemma_pick_unique(edges, r, 0);
    }
}

/// What a draw selects after a source is the destination of one of the
/// source's transitions.
pub proof fn lemma_chosen_is_destination(g: Seq<Node>, from: Symbol, draw: usize)
    ensures
        chosen(g, from, draw) is Some ==> has_edge(fan(g, from), chosen(g, from, draw)->Some_0),
{
    let edges = fan(g, from);
    let t = total(edges);
    if t > 0 {
        let r = draw as nat % t;
        assert(r < t) by (nonlinear_arith)
            requires
                r == draw as nat % t,
                t > 0,
        ;
        lemma_pick_exists(edges, r);
        let j = pick(edges, r);
        assert(edges[j].to == chosen(g, from, draw)->Some_0);
    }
}

/// In a well-formed graph every edge has a positive weight.
pub proof fn lemma_edge_has_weight(g: Seq<Node>, s: Symbol, d: Symbol)
    requires
        well_formed(g),
        has_edge(fan(g, s), d),
    ensures
        weight(g, s, d) > 0,
{
    let edges = fan(g, s);
    let k = node_at(g, s);
    assert(edges_ok(g[k].edges));
    let j = edge_at(edges, d);
    lemma_edge_at(edges, j);
}

/// A walk says no word that no transition leads to.
pub proof fn law_walk_says_destinations(g: Seq<Node>, word: Seq<char>, draws: Seq<usize>)
    requires
        forall|s: Symbol| !has_edge(#[trigger] fan(g, s), Symbol::Word(word)),
    ensures
        !walk(g, draws).said.contains(word),
    decreases draws.len(),
{
    if draws.len() > 0 {
        let before = walk(g, draws.drop_last());
        law_walk_says_destinations(g, word, draws.drop_last());
        lemma_chosen_is_destination(g, before.at, draws.last());
        let after = walk(g, draws);
        if after.said.contains(word) {
            let k = choose|k: int| 0 <= k < after.said.len() && after.said[k] == word;
            if k < before.said.len() {
                assert(before.said[k] == word);
            } else {
                assert(has_edge(fan(g, before.at), Symbol::Word(word)));
            }
        }
    }
}

/// The symbol after which the word at position `i` of an utterance is
/// said: the boundary for the first word, else the word before.
pub open spec fn said_after(said: Seq<Seq<char>>, i: int) -> Symbol {
    if i == 0 {
        Symbol::Boundary
    } else {
        Symbol::Word(said[i - 1])
    }
}

/// An utterance follows transitions of the graph: its first word was
/// observed after a boundary, and each later word after the word before
/// it. The walk stands at the last word said.
pub proof fn law_walk_follows_transitions(g: Seq<Node>, draws: Seq<usize>)
    requires
        well_formed(g),
    ensures
        walk(g, draws).at == said_after(walk(g, draws).said, walk(g, draws).said.len() as int),
        forall|i: int|
            0 <= i < walk(g, draws).said.len() ==> weight(
                g,
                said_after(walk(g, draws).said, i),
                Symbol::Word(#[trigger] walk(g, draws).said[i]),
            ) > 0,
    decreases draws.len(),
{
    if draws.len() > 0 {
        let before = walk(g, draws.drop_last());
        let after = walk(g, draws);
        law_walk_follows_transitions(g, draws.drop_last());
        lemma_chosen_is_destination(g, before.at, draws.last());
        if after.said.len() > before.said.len() {
            let n = before.said.len() as int;
            let to = chosen(g, before.at, draws.last())->Some_0;
            lemma_edge_has_weight(g, before.at, to);
            assert forall|i: int| 0 <= i < after.said.len() implies weight(
                g,
                said_after(after.said, i),
                Symbol::Word(#[trigger] after.said[i]),
            ) > 0 by {
                if i < n {
                    assert(after.said[i] == before.said[i]);
                    assert(said_after(after.said, i) == said_after(before.said, i));
                }
            }
        }
    }
}

/// In a closed graph with the boundary as a source, a walk stands on a
/// source at every step: following a transition never leads out of the
/// sources.
pub proof fn law_walk_on_sources(g: Seq<Node>, draws: Seq<usize>)
    requires
        well_formed(g),
        closed(g),
        has_node(g, Symbol::Boundary),
    ensures
        has_node(g, walk(g, draws).at),
    decreases draws.len(),
{
    if draws.len() > 0 {
        let before = walk(g, draws.drop_last());
        law_walk_on_sources(g, draws.drop_last());
        lemma_chosen_is_destination(g, before.at, draws.last());
        if !before.done && chosen(g, before.at, draws.last()) is Some {
            let to = chosen(g, before.at, draws.last())->Some_0;
            lemma_edge_has_weight(g, before.at, to);
        }
    }
}

/// After a source word without a space was pruned, no walk says it.
pub proof fn law_prune_silences(g: Seq<Node>, word: Seq<char>, draws: Seq<usize>)
    requires
        well_formed(g),
        !word.contains(' '),
        has_node(g, Symbol::Word(word)),
    ensures
        !walk(prune(g, word), draws).said.contains(word),
{
    let w = Symbol::Word(word);
    let after = prune(g, word);
    assert forall|s: Symbol| !has_edge(#[trigger] fan(after, s), w) by {
        lemma_forget_weights(g, w, s, w);
        if has_edge(fan(after, s), w) {
            let edges = fan(after, s);
            let k = node_at(after, s);
            assert(edges_ok(after[k].edges));
            let j = edge_at(edges, w);
            lemma_edge_at(edges, j);
        }
    }
    law_walk_says_destinations(after, word, draws);
}

/// In a graph whose only transition leads from the boundary to the
/// boundary, every walk of at least one step ends with nothing said: the
/// utterance is empty.
pub proof fn law_boundary_only(count: nat, draws: Seq<usize>)
    requires
        count >= 1,
        draws.len() >= 1,
    ensures
        walk(
            seq![
                Node {
                    from: Symbol::Boundary,
                    edges: seq![Edge { to: Symbol::Boundary, weight: count }],
                },
            ],
            draws,
        ) == (Walk { at: Symbol::Boundary, said: Seq::empty(), done: true }),
        join(Seq::<Seq<char>>::empty()) == Seq::<char>::empty(),
{
    let edges = seq![Edge { to: Symbol::Boundary, weight: count }];
    let g = seq![Node { from: Symbol::Boundary, edges: edges }];
    assert(g[0].from == Symbol::Boundary);
    lemma_node_at(g, 0);
    lemma_running(edges, 0);
    assert(edges.take(0) =~= Seq::<Edge>::empty());
    lemma_chosen_is_destination(g, Symbol::Boundary, draws[0]);
    let to = chosen(g, Symbol::Boundary, draws[0])->Some_0;
    let j = edge_at(edges, to);
    assert(edges[j].to == to);
    assert(draws.take(1).drop_last() =~= Seq::<usize>::empty());
    assert(walk(g, draws.take(1).drop_last()) == start());
    assert(draws.take(1).last() == draws[0]);
    lemma_done_stays(g, draws, 1);
}

/// No piece of a text holds a space, and the pieces joined by single
/// spaces are the text again.
pub proof fn law_pieces_rejoin(s: Seq<char>)
    ensures
        pieces(s).len() >= 1,
        forall|i: int| 0 <= i < pieces(s).len() ==> !(#[trigger] pieces(s)[i]).contains(' '),
        join(pieces(s)) == s,
    decreases s.len(),
{
    if s.len() == 0 {
        assert(join(pieces(s)) =~= s);
    } else {
        let init = s.drop_last();
        let before = pieces(init);
        let c = s.last();
        law_pieces_rejoin(init);
        let after = pieces(s);
        let n = before.len() as int;
        if c == ' ' {
            assert(after.drop_last() =~= before);
            assert(join(after) =~= join(before) + seq![' '] + Seq::<char>::empty());
            assert(join(after) =~= s);
        } else {
            assert(!after[n - 1].contains(' ')) by {
                let piece = after[n - 1];
                if piece.contains(' ') {
                    let k = choose|k: int| 0 <= k < piece.len() && piece[k] == ' ';
                    assert(before[n - 1][k] == ' ');
                }
            }
            if n == 1 {
                assert(join(after) =~= s);
            } else {
                assert(after.drop_last() =~= before.drop_last());
                assert(join(after) =~= (join(before.drop_last()) + seq![' '] + before.last()).push(
                    c,
                ));
                assert(join(after) =~= s);
            }
        }
    }
}

/// The words of a message hold no space, and joined by single spaces they
/// are the message again.
pub proof fn law_words_rejoin(s: Seq<char>)
    ensures
        forall|i: int| 0 <= i < words(s).len() ==> !(#[trigger] words(s)[i]).contains(' '),
        join(words(s)) == s,
        words(s).len() == 0 <==> s.len() == 0,
{
    law_pieces_rejoin(s);
    if s.len() == 0 {
        assert(join(words(s)) =~= s);
    }
}

/// A word without a space stays without one when its last character goes.
proof fn lemma_shorter_has_no_space(w: Seq<char>)
    requires
        !w.contains(' '),
        w.len() > 0,
    ensures
        !w.drop_last().contains(' '),
        w.last() != ' ',
{
    let shorter = w.drop_last();
    if shorter.contains(' ') {
        let k = choose|k: int| 0 <= k < shorter.len() && shorter[k] == ' ';
        assert(w[k] == ' ');
    }
    assert(w[w.len() - 1] == w.last());
}

/// The pieces of a text are the only way to cut it at single spaces: a
/// sequence of at least one word, none with a space, that joins to the
/// text is the sequence of its pieces.
pub proof fn law_pieces_unique(s: Seq<char>, ws: Seq<Seq<char>>)
    requires
        ws.len() >= 1,
        forall|i: int| 0 <= i < ws.len() ==> !(#[trigger] ws[i]).contains(' '),
        join(ws) == s,
    ensures
        ws == pieces(s),
    decreases s.len(),
{
    let n = ws.len() as int;
    let last = ws.last();
    assert(!last.contains(' ')) by {
        assert(ws[n - 1] == last);
    }
    if n == 1 {
        assert(ws[0] == s);
        if s.len() == 0 {
            assert(ws[0] =~= Seq::<char>::empty());
            assert(ws =~= pieces(s));
        } else {
            lemma_shorter_has_no_space(s);
            let shorter = seq![s.drop_last()];
            law_pieces_unique(s.drop_last(), shorter);
            assert(s.drop_last().push(s.last()) =~= s);
            assert(ws =~= pieces(s));
        }
    } else {
        let front = ws.drop_last();
        let j = join(front);
        assert(s =~= j + seq![' '] + last);
        if last.len() == 0 {
            assert(s.drop_last() =~= j);
            assert forall|i: int| 0 <= i < front.len() implies !(#[trigger] front[i]).contains(
                ' ',
            ) by {
                assert(front[i] == ws[i]);
            }
            law_pieces_unique(j, front);
            assert(last =~= Seq::<char>::empty());
            assert(ws =~= front.push(Seq::empty()));
        } else {
            lemma_shorter_has_no_space(last);
            let shorter = ws.update(n - 1, last.drop_last());
            assert(shorter.drop_last() =~= front);
            assert(join(shorter) =~= s.drop_last());
            assert forall|i: int| 0 <= i < shorter.len() implies !(
            #[trigger] shorter[i]).contains(' ') by {
                if i < n - 1 {
                    assert(shorter[i] == ws[i]);
                }
            }
            law_pieces_unique(s.drop_last(), shorter);
            assert(last.drop_last().push(s.last()) =~= last);
            assert(ws =~= shorter.update(n - 1, shorter.last().push(s.last())));
        }
    }
}

} // verus!
