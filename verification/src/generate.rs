//! Generation: a weighted random walk from boundary to boundary.

use rand::Rng;
use vstd::prelude::*;
use crate::model::{fan, total, Node};
use crate::sampling::{advance, chosen, lemma_done_stays, walk, Walk};
use crate::table::MarkovChain;
use crate::token::{Symbol, Token};
use crate::words::{join, join_words, texts};

verus! {

/// The largest number of steps that a walk with random draws takes. A walk
/// that has not reached a boundary by then is cut off after its last word.
pub const MAX_STEPS: usize = 1000;

/// A random number below `bound`.
///
/// Calls `rand::thread_rng` and `Rng::gen_range` with the range from zero
/// up to but not including `bound`. The result lies in that range; which
/// number of the range it is, is left open. `gen_range` panics on an empty
/// range, hence the demand on `bound`. `thread_rng` panics where the
/// system gives the thread no source of randomness; nothing here can rule
/// that out.
#[verifier::external_body]
fn random_below(bound: usize) -> (r: usize)
    requires
        bound > 0,
    ensures
        r < bound,
{
    rand::thread_rng().gen_range(0..bound)
}

/// The symbol of a token, if there is a token.
pub open spec fn symbol_of(next: Option<Token>) -> Option<Symbol> {
    match next {
        Some(t) => Some(t@),
        None => None,
    }
}

/// Whether `draw` is a number that can be drawn after `from`, and `next`
/// is what it selects.
pub open spec fn drawn(g: Seq<Node>, from: Symbol, draw: usize, next: Option<Symbol>) -> bool {
    &&& total(fan(g, from)) == 0 || draw < total(fan(g, from))
    &&& chosen(g, from, draw) == next
}

/// Hands the outcome of one step to a walk under way: a word is said and
/// becomes the place of the walk; anything else ends the walk. Returns
/// whether the walk has ended.
fn take_step(at: &mut Token, said: &mut Vec<String>, next: Option<Token>) -> (done: bool)
    ensures
        advance(Walk { at: old(at)@, said: texts(old(said)@), done: false }, symbol_of(next)) == (
        Walk { at: final(at)@, said: texts(final(said)@), done: done }),
{
    let ghost before = texts(said@);
    match next {
        Some(Token::Word(word)) => {
            said.push(word.clone());
            *at = Token::Word(word);
            proof {
                assert(texts(said@) =~= before.push(at@->Word_0));
            }
            false
        },
        _ => true,
    }
}

impl MarkovChain {
    /// The token after `previous` by a random draw, if `previous` has any
    /// transition: a number below the sum of the weights out of `previous`
    /// is drawn, and the token that it selects is returned.
    fn next(&self, previous: &Token) -> (next: Option<Token>)
        requires
            self.wf(),
        ensures
            exists|draw: usize| #[trigger] drawn(self@, previous@, draw, symbol_of(next)),
    {
        let t = self.weight_from(previous);
        if t == 0 {
            assert(drawn(self@, previous@, 0, symbol_of(None)));
            None
        } else {
            let draw = random_below(t);
            let next = self.follow(previous, draw);
            assert(drawn(self@, previous@, draw, symbol_of(next)));
            next
        }
    }

    /// Generates one utterance from the given draws, one draw for each step
    /// of the walk; the walk is cut off where the draws run out. Nothing
    /// is generated from a table without sources. An utterance without
    /// words is the empty string.
    pub fn generate_with(&self, draws: &Vec<usize>) -> (out: Option<String>)
        requires
            self.wf(),
        ensures
            out is None <==> self@.len() == 0,
            out is Some ==> out->Some_0@ == join(walk(self@, draws@).said),
    {
        if self.len() == 0 {
            return None;
        }
        let mut said: Vec<String> = Vec::new();
        let mut at = Token::Boundary;
        let mut done = false;
        let mut i: usize = 0;
        proof {
            assert(draws@.take(0) =~= Seq::<usize>::empty());
            assert(texts(said@) =~= Seq::<Seq<char>>::empty());
        }
        while i < draws.len() && !done
            invariant
                i <= draws.len(),
                self.wf(),
                walk(self@, draws@.take(i as int)) == (Walk {
                    at: at@,
                    said: texts(said@),
                    done: done,
                }),
            decreases draws.len() - i,
        {
            proof {
                assert(draws@.take(i + 1).drop_last() =~= draws@.take(i as int));
            }
            let next = self.follow(&at, draws[i]);
            done = take_step(&mut at, &mut said, next);
            i = i + 1;
        }
        proof {
            if done {
                lemma_done_stays(self@, draws@, i as int);
            } else {
                assert(draws@.take(i as int) =~= draws@);
            }
        }
        Some(join_words(&said))
    }

    /// Generates one utterance by a random walk from the boundary: at each
    /// step a number below the sum of the weights out of the current token
    /// is drawn and the token that it selects is followed; a boundary ends
    /// the walk, and so does a token without transitions. Nothing is
    /// generated from a table without sources. An utterance without words
    /// is the empty string.
    pub fn generate(&self) -> (out: Option<String>)
        requires
            self.wf(),
        ensures
            out is None <==> self@.len() == 0,
            out is Some ==> exists|draws: Seq<usize>|
                {
                    &&& draws.len() <= MAX_STEPS
                    &&& (#[trigger] walk(self@, draws)).done || draws.len() == MAX_STEPS
                    &&& out->Some_0@ == join(walk(self@, draws).said)
                },
    {
        if self.len() == 0 {
            return None;
        }
        let mut said: Vec<String> = Vec::new();
        let mut at = Token::Boundary;
        let mut done = false;
        let mut i: usize = 0;
        let ghost mut draws: Seq<usize> = Seq::empty();
        proof {
            assert(texts(said@) =~= Seq::<Seq<char>>::empty());
        }
        while i < MAX_STEPS && !done
            invariant
                i <= MAX_STEPS,
                draws.len() == i,
                self.wf(),
                walk(self@, draws) == (Walk { at: at@, said: texts(said@), done: done }),
            decreases MAX_STEPS - i,
        {
            let next = self.next(&at);
            proof {
                let draw = choose|draw: usize| #[trigger] drawn(self@, at@, draw, symbol_of(next));
                assert(draws.push(draw).drop_last() =~= draws);
                draws = draws.push(draw);
            }
            done = take_step(&mut at, &mut said, next);
            i = i + 1;
        }
        Some(join_words(&said))
    }
}

} // verus!
