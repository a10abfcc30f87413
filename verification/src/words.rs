//! Splitting a message into words and joining words into a message.

use vstd::prelude::*;

verus! {

/// The views of a vector of strings.
pub open spec fn texts(v: Seq<String>) -> Seq<Seq<char>> {
    v.map_values(|w: String| w@)
}

/// The pieces between the single spaces of `s`, in order. There is one more
/// piece than there are spaces; a piece is empty where two spaces meet and
/// where a space begins or ends `s`.
pub open spec fn pieces(s: Seq<char>) -> Seq<Seq<char>>
    decreases s.len(),
{
    if s.len() == 0 {
        seq![Seq::empty()]
    } else {
        let before = pieces(s.drop_last());
        if s.last() == ' ' {
            before.push(Seq::empty())
        } else {
            before.update(before.len() - 1, before.last().push(s.last()))
        }
    }
}

/// The words of a message: none for the empty message, else its pieces.
pub open spec fn words(s: Seq<char>) -> Seq<Seq<char>> {
    if s.len() == 0 {
        Seq::empty()
    } else {
        pieces(s)
    }
}

/// The words with one space between each two neighbours.
pub open spec fn join(ws: Seq<Seq<char>>) -> Seq<char>
    decreases ws.len(),
{
    if ws.len() == 0 {
        Seq::empty()
    } else if ws.len() == 1 {
        ws[0]
    } else {
        join(ws.drop_last()) + seq![' '] + ws.last()
    }
}

/// There is always at least one piece.
pub proof fn lemma_pieces_nonempty(s: Seq<char>)
    ensures
        pieces(s).len() >= 1,
        pieces(s).len() <= s.len() + 1,
    decreases s.len(),
{
    if s.len() > 0 {
        lemma_pieces_nonempty(s.drop_last());
    }
}

/// Appends one character to a string.
///
/// Calls `String::push`, which std documents as appending the given
/// character to the end of the string.
#[verifier::external_body]
fn push_char(s: &mut String, c: char)
    ensures
        final(s)@ == old(s)@.push(c),
{
    s.push(c);
}

/// Splits a message at its single spaces.
pub fn split_words(text: &str) -> (out: Vec<String>)
    ensures
        texts(out@) == words(text@),
{
    let mut done: Vec<String> = Vec::new();
    let mut current = String::new();
    let mut empty = true;
    proof {
        assert(text@.take(0) =~= Seq::<char>::empty());
        assert(texts(done@).push(current@) =~= pieces(text@.take(0)));
    }
    for c in it: text.chars()
        invariant
            it.seq() == text@,
            empty == (it.index() == 0),
            texts(done@).push(current@) == pieces(text@.take(it.index() as int)),
    {
        proof {
            let i = it.index() as int;
            assert(text@.take(i + 1).drop_last() =~= text@.take(i));
            assert(text@.take(i + 1).last() == c);
            lemma_pieces_nonempty(text@.take(i));
        }
        if c == ' ' {
            let ghost before = texts(done@).push(current@);
            done.push(current);
            current = String::new();
            proof {
                assert(texts(done@) =~= before);
            }
        } else {
            let ghost before = texts(done@).push(current@);
            push_char(&mut current, c);
            proof {
                assert(texts(done@).push(current@) =~= before.update(
                    before.len() - 1,
                    before.last().push(c),
                ));
            }
        }
        empty = false;
    }
    proof {
        assert(text@.take(text@.len() as int) =~= text@);
    }
    if empty {
        proof {
            assert(texts(done@) =~= Seq::<Seq<char>>::empty());
        }
        done
    } else {
        let ghost before = texts(done@).push(current@);
        done.push(current);
        proof {
            assert(texts(done@) =~= before);
        }
        done
    }
}

/// Whether the text holds a space.
pub fn has_space(text: &str) -> (found: bool)
    ensures
        found == text@.contains(' '),
{
    let mut found = false;
    for c in it: text.chars()
        invariant
            it.seq() == text@,
            found == exists|k: int| 0 <= k < it.index() && text@[k] == ' ',
    {
        if c == ' ' {
            found = true;
        }
    }
    found
}

/// The words with one space between each two neighbours.
pub fn join_words(ws: &Vec<String>) -> (s: String)
    ensures
        s@ == join(texts(ws@)),
{
    let mut s = String::new();
    let mut i: usize = 0;
    proof {
        reveal_strlit(" ");
        assert(texts(ws@).take(0) =~= Seq::<Seq<char>>::empty());
    }
    while i < ws.len()
        invariant
            i <= ws.len(),
            " "@ == seq![' '],
            s@ == join(texts(ws@).take(i as int)),
        decreases ws.len() - i,
    {
        proof {
            assert(texts(ws@).take(i + 1).drop_last() =~= texts(ws@).take(i as int));
            assert(texts(ws@).take(i + 1).last() == ws@[i as int]@);
            if i == 0 {
                assert(s@ + ws@[i as int]@ =~= ws@[i as int]@);
            }
        }
        if i > 0 {
            s.append(" ");
        }
        s.append(ws[i].as_str());
        i = i + 1;
    }
    proof {
        assert(texts(ws@).take(ws.len() as int) =~= texts(ws@));
    }
    s
}

} // verus!
