//! Tool calls and the confirm-gated shell.

use crate::text;
use vstd::prelude::*;

pub mod exec;

pub use exec::ExecResult;

verus! {

/// A shell command the model wants to run.
#[derive(Debug, PartialEq, Eq)]
pub struct ToolCall {
    pub command: String,
}

impl Clone for ToolCall {
    fn clone(&self) -> (r: Self)
        ensures
            r.command@ == self.command@,
    {
        ToolCall { command: self.command.clone() }
    }
}

/// `command` holds one of the texts of `denylist`. An empty one denies nothing.
pub open spec fn denied(command: Seq<char>, denylist: Seq<Seq<char>>) -> bool {
    exists|i: int|
        0 <= i < denylist.len() && #[trigger] denylist[i].len() > 0 && text::contains(
            command,
            denylist[i],
        )
}

/// True if the command matches any denylist substring. Denylisted commands
/// always require a manual confirm, even when auto-run is on.
pub fn is_denied(command: &str, denylist: &[String]) -> (r: bool)
    ensures
        r == denied(command@, text::views(denylist@)),
{
    let ghost list = text::views(denylist@);
    let mut i: usize = 0;
    while i < denylist.len()
        invariant
            i <= denylist@.len(),
            list == text::views(denylist@),
            forall|k: int|
                0 <= k < i ==> !(#[trigger] list[k].len() > 0 && text::contains(command@, list[k])),
        decreases denylist@.len() - i,
    {
        let d = denylist[i].as_str();
        assert(list[i as int] == d@);
        if !d.is_empty() && text::contains_text(command, d) {
            return true;
        }
        i += 1;
    }
    false
}

/// A command is denied if and only if some text of the denylist, and not an empty one,
/// stands in it, whatever stands before and behind it.
pub proof fn law_denied_is_anywhere(command: Seq<char>, denylist: Seq<Seq<char>>)
    ensures
        denied(command, denylist) <==> exists|i: int, before: Seq<char>, behind: Seq<char>|
            0 <= i < denylist.len() && denylist[i].len() > 0 && command == #[trigger] (before
                + denylist[i] + behind),
{
    if denied(command, denylist) {
        let i = choose|i: int|
            0 <= i < denylist.len() && #[trigger] denylist[i].len() > 0 && text::contains(
                command,
                denylist[i],
            );
        text::lemma_contains_parts(command, denylist[i]);
        let (before, behind) = choose|a: Seq<char>, b: Seq<char>|
            command == #[trigger] (a + denylist[i] + b);
        assert(command == before + denylist[i] + behind);
    }
    if exists|i: int, before: Seq<char>, behind: Seq<char>|
        0 <= i < denylist.len() && denylist[i].len() > 0 && command == #[trigger] (before
            + denylist[i] + behind) {
        let (i, before, behind) = choose|i: int, before: Seq<char>, behind: Seq<char>|
            0 <= i < denylist.len() && denylist[i].len() > 0 && command == #[trigger] (before
                + denylist[i] + behind);
        text::lemma_contains_parts(command, denylist[i]);
        assert(denylist[i].len() > 0 && text::contains(command, denylist[i]));
    }
}

/// A longer denylist denies no less.
pub proof fn law_more_denied(command: Seq<char>, denylist: Seq<Seq<char>>, more: Seq<char>)
    ensures
        denied(command, denylist) ==> denied(command, denylist.push(more)),
{
    if denied(command, denylist) {
        let i = choose|i: int|
            0 <= i < denylist.len() && #[trigger] denylist[i].len() > 0 && text::contains(
                command,
                denylist[i],
            );
        assert(denylist.push(more)[i] == denylist[i]);
    }
}

} // verus!
