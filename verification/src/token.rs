use vstd::prelude::*;

verus! {

/// The mathematical value of a token: a sentence boundary or a word.
pub enum Symbol {
    Boundary,
    Word(Seq<char>),
}

/// A vertex of the transition graph.
pub enum Token {
    /// Start or end of an utterance.
    Boundary,
    /// A single word; the empty word is a word, not a boundary.
    Word(String),
}

impl View for Token {
    type V = Symbol;

    open spec fn view(&self) -> Symbol {
        match self {
            Token::Boundary => Symbol::Boundary,
            Token::Word(w) => Symbol::Word(w@),
        }
    }
}

impl Token {
    /// Whether two tokens denote the same symbol.
    pub fn same(&self, other: &Token) -> (b: bool)
        ensures
            b == (self@ == other@),
    {
        match self {
            Token::Boundary => match other {
                Token::Boundary => true,
                Token::Word(_) => false,
            },
            Token::Word(a) => match other {
                Token::Boundary => false,
                Token::Word(b) => *a == *b,
            },
        }
    }

    /// A fresh token denoting the same symbol.
    pub fn duplicate(&self) -> (t: Token)
        ensures
            t@ == self@,
    {
        match self {
            Token::Boundary => Token::Boundary,
            Token::Word(w) => Token::Word(w.clone()),
        }
    }
}

} // verus!
