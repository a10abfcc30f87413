//! What a chat message asks of the generator.

use vstd::prelude::*;

verus! {

/// What to do with a chat message.
#[derive(Clone, Copy, Debug, PartialEq, Eq, Structural)]
pub enum Command {
    /// Answer with a generated utterance.
    Generate,
    /// Join a channel.
    Join,
    /// Fold the message into the table.
    Ingest,
}

/// Whether `text` begins with `prefix`.
pub open spec fn begins_with(text: Seq<char>, prefix: Seq<char>) -> bool {
    prefix.len() <= text.len() && text.take(prefix.len() as int) == prefix
}

/// The command of a message: messages that begin with `~generate` ask for
/// an utterance, messages that begin with `~join` ask to join, and every
/// other message is material for the table.
pub open spec fn command_of(text: Seq<char>) -> Command {
    if begins_with(text, "~generate"@) {
        Command::Generate
    } else if begins_with(text, "~join"@) {
        Command::Join
    } else {
        Command::Ingest
    }
}

/// Whether `text` begins with `prefix`.
pub fn has_prefix(text: &str, prefix: &str) -> (b: bool)
    ensures
        b == begins_with(text@, prefix@),
{
    let wanted = prefix.unicode_len();
    if text.unicode_len() < wanted {
        return false;
    }
    let mut i: usize = 0;
    while i < wanted
        invariant
            i <= wanted,
            wanted == prefix@.len(),
            wanted <= text@.len(),
            text@.take(i as int) == prefix@.take(i as int),
        decreases wanted - i,
    {
        let c = text.get_char(i);
        if c != prefix.get_char(i) {
            proof {
                if begins_with(text@, prefix@) {
                    assert(text@.take(wanted as int)[i as int] == prefix@[i as int]);
                }
            }
            return false;
        }
        proof {
            assert(text@.take(i + 1) =~= text@.take(i as int).push(c));
            assert(prefix@.take(i + 1) =~= prefix@.take(i as int).push(c));
        }
        i = i + 1;
    }
    proof {
        assert(prefix@.take(wanted as int) =~= prefix@);
    }
    true
}

/// Reads the command of a message.
pub fn classify(text: &str) -> (c: Command)
    ensures
        c == command_of(text@),
{
    if has_prefix(text, "~generate") {
        Command::Generate
    } else if has_prefix(text, "~join") {
        Command::Join
    } else {
        Command::Ingest
    }
}

} // verus!
