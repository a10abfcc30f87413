//! The transition table and the operation that folds a message into it.

use vstd::prelude::*;
use crate::laws::law_ingest_accumulates;
use crate::lemmas::{
    lemma_edge_at, lemma_forget, lemma_forget_bounded, lemma_forget_closed, lemma_forget_weights,
    lemma_ingest_closed, lemma_node_at, lemma_record, lemma_record_fan, lemma_weight_le_total,
};
use crate::model::{
    bounded, bump, closed, edges_ok, edges_without, fan, forget, has_edge, has_node, ingest,
    node_at, path, prune, record, record_path, rooted, total, transitions, weight, well_formed,
    Edge, Node,
};
use crate::sampling::{chosen, is_pick, lemma_pick_unique, lemma_running, running};
use crate::token::{Symbol, Token};
use crate::words::{has_space, split_words, texts, words};

verus! {

/// One destination of a source, with the number of times it was observed.
struct Link {
    to: Token,
    weight: usize,
}

/// One source with its destinations, in the order of first observation.
struct Row {
    from: Token,
    links: Vec<Link>,
}

/// A first-order transition table: for each source token, how often each
/// destination token followed it.
pub struct MarkovChain {
    rows: Vec<Row>,
    observed: usize,
}

impl View for Link {
    type V = Edge;

    closed spec fn view(&self) -> Edge {
        Edge { to: self.to@, weight: self.weight as nat }
    }
}

spec fn edges_of(links: Seq<Link>) -> Seq<Edge> {
    links.map_values(|l: Link| l@)
}

impl View for Row {
    type V = Node;

    closed spec fn view(&self) -> Node {
        Node { from: self.from@, edges: edges_of(self.links@) }
    }
}

spec fn nodes_of(rows: Seq<Row>) -> Seq<Node> {
    rows.map_values(|r: Row| r@)
}

impl View for MarkovChain {
    type V = Seq<Node>;

    closed spec fn view(&self) -> Seq<Node> {
        nodes_of(self.rows@)
    }
}

/// The position of the link to `to`, if there is one.
fn find_link(links: &Vec<Link>, to: &Token) -> (found: Option<usize>)
    ensures
        match found {
            Some(j) => j < links.len() && edges_of(links@)[j as int].to == to@,
            None => !has_edge(edges_of(links@), to@),
        },
{
    let mut j: usize = 0;
    while j < links.len()
        invariant
            j <= links.len(),
            forall|k: int| 0 <= k < j ==> (#[trigger] edges_of(links@)[k]).to != to@,
        decreases links.len() - j,
    {
        if links[j].to.same(to) {
            return Some(j);
        }
        j = j + 1;
    }
    None
}

/// Counts one more observation of the destination `to` in a row.
fn bump_row(row: &mut Row, to: &Token)
    requires
        edges_ok(old(row)@.edges),
        total(old(row)@.edges) < usize::MAX,
    ensures
        final(row)@ == (Node { from: old(row)@.from, edges: bump(old(row)@.edges, to@) }),
{
    let ghost before = edges_of(row.links@);
    match find_link(&row.links, to) {
        Some(j) => {
            proof {
                lemma_edge_at(before, j as int);
                lemma_weight_le_total(before, j as int);
            }
            let link = &mut row.links[j];
            link.weight = link.weight + 1;
            proof {
                assert(edges_of(row.links@) =~= bump(before, to@));
            }
        },
        None => {
            row.links.push(Link { to: to.duplicate(), weight: 1 });
            proof {
                assert(edges_of(row.links@) =~= bump(before, to@));
            }
        },
    }
}

/// A copy of the links that do not lead to `to`.
fn links_without(links: &Vec<Link>, to: &Token) -> (kept: Vec<Link>)
    ensures
        edges_of(kept@) == edges_without(edges_of(links@), to@),
{
    let mut kept: Vec<Link> = Vec::new();
    let mut j: usize = 0;
    proof {
        assert(edges_of(links@).take(0) =~= Seq::<Edge>::empty());
        assert(edges_of(kept@) =~= Seq::<Edge>::empty());
    }
    while j < links.len()
        invariant
            j <= links.len(),
            edges_of(kept@) == edges_without(edges_of(links@).take(j as int), to@),
        decreases links.len() - j,
    {
        let ghost before = edges_of(kept@);
        proof {
            assert(edges_of(links@).take(j + 1).drop_last() =~= edges_of(links@).take(j as int));
        }
        if !links[j].to.same(to) {
            kept.push(Link { to: links[j].to.duplicate(), weight: links[j].weight });
            proof {
                assert(edges_of(kept@) =~= before.push(edges_of(links@)[j as int]));
            }
        }
        j = j + 1;
    }
    proof {
        assert(edges_of(links@).take(links.len() as int) =~= edges_of(links@));
    }
    kept
}

/// The sum of the weights of the links.
fn sum(links: &Vec<Link>) -> (t: usize)
    requires
        total(edges_of(links@)) <= usize::MAX,
    ensures
        t == total(edges_of(links@)),
{
    let ghost edges = edges_of(links@);
    let mut t: usize = 0;
    let mut j: usize = 0;
    proof {
        assert(edges.take(0) =~= Seq::<Edge>::empty());
    }
    while j < links.len()
        invariant
            j <= links.len(),
            edges == edges_of(links@),
            total(edges) <= usize::MAX,
            t == total(edges.take(j as int)),
        decreases links.len() - j,
    {
        proof {
            lemma_running(edges, j as int);
        }
        t = t + links[j].weight;
        j = j + 1;
    }
    proof {
        assert(edges.take(links.len() as int) =~= edges);
    }
    t
}

/// The first position at which the running total of the weights reaches `r`.
fn select(links: &Vec<Link>, r: usize) -> (j: usize)
    requires
        r < total(edges_of(links@)) <= usize::MAX,
    ensures
        is_pick(edges_of(links@), r as nat, j as int),
{
    let ghost edges = edges_of(links@);
    proof {
        if links.len() == 0 {
            assert(total(edges) == 0);
        }
        lemma_running(edges, 0);
        assert(edges.take(0) =~= Seq::<Edge>::empty());
    }
    let mut j: usize = 0;
    let mut reached: usize = links[0].weight;
    while reached < r
        invariant
            j < links.len(),
            edges == edges_of(links@),
            r < total(edges) <= usize::MAX,
            reached == running(edges, j as int),
            forall|k: int| 0 <= k < j ==> #[trigger] running(edges, k) < r,
        decreases links.len() - j,
    {
        proof {
            lemma_running(edges, j as int);
            if j + 1 < links.len() {
                lemma_running(edges, j + 1);
            }
        }
        j = j + 1;
        reached = reached + links[j].weight;
    }
    j
}

impl MarkovChain {
    /// The table holds no source twice, no destination twice under one
    /// source, no weight of zero, and no more weight under one source than
    /// it has counted observations; every word that a transition leads to
    /// is a source, and so is the boundary unless the table is empty.
    pub open spec fn wf(&self) -> bool {
        &&& self.counted()
        &&& closed(self@)
        &&& rooted(self@)
    }

    /// What holds of the table between any two observations.
    pub open spec fn counted(&self) -> bool {
        &&& well_formed(self@)
        &&& bounded(self@, self.observations())
    }

    /// The number of transitions ever recorded.
    pub closed spec fn observations(&self) -> nat {
        self.observed as nat
    }

    /// Whether a message of `text` can still be counted: the number of
    /// observations stays within `usize`.
    pub open spec fn has_room(&self, text: Seq<char>) -> bool {
        self.observations() + words(text).len() + 1 <= usize::MAX
    }

    /// The position of the row of `from`, if there is one.
    fn find_row(&self, from: &Token) -> (found: Option<usize>)
        ensures
            match found {
                Some(i) => i < self.rows.len() && self@[i as int].from == from@,
                None => !has_node(self@, from@),
            },
    {
        let mut i: usize = 0;
        while i < self.rows.len()
            invariant
                i <= self.rows.len(),
                forall|k: int| 0 <= k < i ==> (#[trigger] self@[k]).from != from@,
            decreases self.rows.len() - i,
        {
            if self.rows[i].from.same(from) {
                return Some(i);
            }
            i = i + 1;
        }
        None
    }

    /// Counts one more observation of the transition `from` → `to`.
    fn record(&mut self, from: &Token, to: &Token)
        requires
            old(self).counted(),
            old(self).observations() < usize::MAX,
        ensures
            final(self)@ == record(old(self)@, from@, to@),
            final(self).counted(),
            final(self).observations() == old(self).observations() + 1,
    {
        let ghost before = self@;
        proof {
            lemma_record(before, from@, to@);
            lemma_record_fan(before, from@, to@);
        }
        match self.find_row(from) {
            Some(i) => {
                proof {
                    lemma_node_at(before, i as int);
                }
                bump_row(&mut self.rows[i], to);
                proof {
                    assert(self@ =~= record(before, from@, to@));
                }
            },
            None => {
                let mut links: Vec<Link> = Vec::new();
                links.push(Link { to: to.duplicate(), weight: 1 });
                proof {
                    assert(edges_of(links@) =~= bump(Seq::empty(), to@));
                }
                self.rows.push(Row { from: from.duplicate(), links: links });
                proof {
                    assert(self@ =~= record(before, from@, to@));
                }
            },
        }
        self.observed = self.observed + 1;
        proof {
            let after = self@;
            assert forall|i: int| 0 <= i < after.len() implies total((#[trigger] after[i]).edges)
                <= self.observed by {
                lemma_node_at(after, i);
                let s = after[i].from;
                assert(total(fan(after, s)) == total(fan(before, s)) + (if s == from@ {
                    1nat
                } else {
                    0nat
                }));
                if has_node(before, s) {
                    let k = node_at(before, s);
                    assert(total(before[k].edges) <= old(self).observed);
                } else {
                    assert(total(Seq::<Edge>::empty()) == 0);
                }
            }
        }
    }

    /// Counts each transition of boundary, words, boundary once.
    fn add_words(&mut self, parts: &Vec<String>)
        requires
            old(self).counted(),
            old(self).observations() + parts@.len() + 1 <= usize::MAX,
        ensures
            final(self)@ == record_path(
                old(self)@,
                path(texts(parts@)),
                (parts@.len() + 1) as nat,
            ),
            final(self).counted(),
            final(self).observations() == old(self).observations() + parts@.len() + 1,
    {
        let ghost p = path(texts(parts@));
        let mut previous = Token::Boundary;
        let mut i: usize = 0;
        while i < parts.len()
            invariant
                i <= parts.len(),
                p == path(texts(parts@)),
                self.counted(),
                self.observations() == old(self).observations() + i,
                old(self).observations() + parts@.len() + 1 <= usize::MAX,
                self@ == record_path(old(self)@, p, i as nat),
                previous@ == p[i as int],
            decreases parts.len() - i,
        {
            let next = Token::Word(parts[i].clone());
            proof {
                assert(texts(parts@)[i as int] == parts@[i as int]@);
                assert(next@ == p[i + 1]);
            }
            self.record(&previous, &next);
            previous = next;
            i = i + 1;
        }
        self.record(&previous, &Token::Boundary);
    }

    /// Folds a message into the table: the message is split at its single
    /// spaces, and each transition of boundary, words, boundary is counted
    /// once, so that every weight grows by the number of times its
    /// transition occurs in the message. A table that has counted so many
    /// transitions that those of the message would take the count beyond
    /// `usize` is left as it is.
    pub fn add(&mut self, text: &str)
        requires
            old(self).wf(),
        ensures
            final(self).wf(),
            old(self).has_room(text@) ==> final(self)@ == ingest(old(self)@, text@)
                && final(self).observations() == old(self).observations() + words(text@).len()
                + 1,
            !old(self).has_room(text@) ==> final(self)@ == old(self)@ && final(self).observations()
                == old(self).observations(),
            old(self).has_room(text@) ==> forall|s: Symbol, d: Symbol|
                #[trigger] weight(final(self)@, s, d) == weight(old(self)@, s, d) + transitions(
                    text@,
                    s,
                    d,
                ),
    {
        proof {
            lemma_ingest_closed(self@, text@);
            assert forall|s: Symbol, d: Symbol|
                #[trigger] weight(ingest(self@, text@), s, d) == weight(self@, s, d) + transitions(
                    text@,
                    s,
                    d,
                ) by {
                law_ingest_accumulates(self@, text@, s, d);
            }
        }
        let parts = split_words(text);
        if parts.len() < usize::MAX - self.observed {
            self.add_words(&parts);
        }
    }

    /// The number of transitions counted so far.
    pub fn observed(&self) -> (n: usize)
        ensures
            n == self.observations(),
    {
        self.observed
    }

    /// The number of sources.
    pub fn len(&self) -> (n: usize)
        ensures
            n == self@.len(),
    {
        self.rows.len()
    }

    /// How often `to` was observed after `from`.
    pub fn weight(&self, from: &Token, to: &Token) -> (w: usize)
        requires
            self.wf(),
        ensures
            w == weight(self@, from@, to@),
    {
        match self.find_row(from) {
            None => 0,
            Some(i) => {
                proof {
                    lemma_node_at(self@, i as int);
                }
                match find_link(&self.rows[i].links, to) {
                    None => 0,
                    Some(j) => {
                        proof {
                            lemma_edge_at(self@[i as int].edges, j as int);
                        }
                        self.rows[i].links[j].weight
                    },
                }
            },
        }
    }

    /// The sum of the weights of the transitions out of `from`.
    pub fn weight_from(&self, from: &Token) -> (t: usize)
        requires
            self.wf(),
        ensures
            t == total(fan(self@, from@)),
    {
        match self.find_row(from) {
            None => 0,
            Some(i) => {
                proof {
                    lemma_node_at(self@, i as int);
                }
                sum(&self.rows[i].links)
            },
        }
    }

    /// The token that `draw` selects after `from`, if `from` has any
    /// transition: the destinations are scanned in the order of first
    /// observation, and the first one at which the running total of the
    /// weights reaches the draw, reduced modulo their sum, is taken.
    pub fn follow(&self, from: &Token, draw: usize) -> (next: Option<Token>)
        requires
            self.wf(),
        ensures
            match next {
                Some(t) => chosen(self@, from@, draw) == Some(t@),
                None => chosen(self@, from@, draw) is None,
            },
    {
        match self.find_row(from) {
            None => None,
            Some(i) => {
                proof {
                    lemma_node_at(self@, i as int);
                }
                let links = &self.rows[i].links;
                let t = sum(links);
                if t == 0 {
                    None
                } else {
                    let j = select(links, draw % t);
                    proof {
                        lemma_pick_unique(edges_of(links@), (draw % t) as nat, j as int);
                    }
                    Some(links[j].to.duplicate())
                }
            },
        }
    }

    /// Forgets a word: where `word` holds no space and is a source, its
    /// row goes and so does every transition into it, while every
    /// transition between other tokens keeps its weight; otherwise nothing
    /// changes.
    pub fn remove_word(&mut self, word: &str)
        requires
            old(self).wf(),
        ensures
            final(self)@ == prune(old(self)@, word@),
            final(self).wf(),
            final(self).observations() == old(self).observations(),
            !word@.contains(' ') ==> !has_node(final(self)@, Symbol::Word(word@)),
            !word@.contains(' ') && has_node(old(self)@, Symbol::Word(word@)) ==> forall|
                s: Symbol,
                d: Symbol,
            |
                #[trigger] weight(final(self)@, s, d) == if s == Symbol::Word(word@) || d
                    == Symbol::Word(word@) {
                    0
                } else {
                    weight(old(self)@, s, d)
                },
    {
        if has_space(word) {
            return;
        }
        let key = Token::Word(word.to_owned());
        match self.find_row(&key) {
            None => {
                return;
            },
            Some(_) => {},
        }
        let ghost before = self@;
        proof {
            assert forall|s: Symbol, d: Symbol|
                #[trigger] weight(forget(before, key@), s, d) == if s == key@ || d == key@ {
                    0
                } else {
                    weight(before, s, d)
                } by {
                lemma_forget_weights(before, key@, s, d);
            }
        }
        let mut kept: Vec<Row> = Vec::new();
        let mut i: usize = 0;
        proof {
            assert(before.take(0) =~= Seq::<Node>::empty());
            assert(nodes_of(kept@) =~= Seq::<Node>::empty());
        }
        while i < self.rows.len()
            invariant
                i <= self.rows.len(),
                before == self@,
                nodes_of(kept@) == forget(before.take(i as int), key@),
            decreases self.rows.len() - i,
        {
            let ghost sofar = nodes_of(kept@);
            proof {
                assert(before.take(i + 1).drop_last() =~= before.take(i as int));
            }
            if !self.rows[i].from.same(&key) {
                let links = links_without(&self.rows[i].links, &key);
                kept.push(Row { from: self.rows[i].from.duplicate(), links: links });
                proof {
                    assert(nodes_of(kept@) =~= sofar.push(
                        Node {
                            from: before[i as int].from,
                            edges: edges_without(before[i as int].edges, key@),
                        },
                    ));
                }
            }
            i = i + 1;
        }
        proof {
            assert(before.take(before.len() as int) =~= before);
            lemma_forget(before, key@);
            lemma_forget_bounded(before, key@, self.observations());
            lemma_forget_closed(before, word@);
        }
        self.rows = kept;
    }
}

impl Default for MarkovChain {
    /// The empty table: nothing observed yet.
    fn default() -> (chain: MarkovChain)
        ensures
            chain@ == Seq::<Node>::empty(),
            chain.wf(),
            chain.observations() == 0,
    {
        MarkovChain { rows: Vec::new(), observed: 0 }
    }
}

} // verus!
