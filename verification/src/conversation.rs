//! Turns of the research conversation.
use vstd::prelude::*;
use vstd::string::StringExecFns;
use crate::knowledge::SearchHit;
use crate::text::string_of;

verus! {

broadcast use vstd::string::group_string_axioms;

#[derive(Debug, Clone, Copy, PartialEq, Eq, Structural)]
pub enum Role {
    User,
    Assistant,
}

#[derive(Debug, Clone)]
pub struct Turn {
    pub id: usize,
    pub role: Role,
    pub text: String,
    pub sources: Vec<SearchHit>,
}

pub open spec fn digit_char(d: nat) -> char {
    if d == 0 { '0' } else if d == 1 { '1' } else if d == 2 { '2' } else if d == 3 { '3' }
    else if d == 4 { '4' } else if d == 5 { '5' } else if d == 6 { '6' } else if d == 7 { '7' }
    else if d == 8 { '8' } else { '9' }
}

/// Decimal notation of `n`, without leading zeros.
pub open spec fn decimal(n: nat) -> Seq<char>
    decreases n,
{
    if n < 10 {
        seq![digit_char(n)]
    } else {
        decimal(n / 10).push(digit_char(n % 10))
    }
}

fn digit(d: usize) -> (r: char)
    requires
        d < 10,
    ensures
        r == digit_char(d as nat),
{
    if d == 0 { '0' } else if d == 1 { '1' } else if d == 2 { '2' } else if d == 3 { '3' }
    else if d == 4 { '4' } else if d == 5 { '5' } else if d == 6 { '6' } else if d == 7 { '7' }
    else if d == 8 { '8' } else { '9' }
}

/// Decimal notation of `n`.
pub fn decimal_chars(n: usize) -> (r: Vec<char>)
    ensures
        r@ == decimal(n as nat),
    decreases n,
{
    if n < 10 {
        let mut r = Vec::new();
        r.push(digit(n));
        assert(r@ =~= seq![digit_char(n as nat)]);
        r
    } else {
        let mut r = decimal_chars(n / 10);
        r.push(digit(n % 10));
        r
    }
}

/// What the assistant says about a retrieval that found `count` notes for
/// `query`.
pub open spec fn retrieval_text(query: Seq<char>, count: nat) -> Seq<char> {
    if count == 0 {
        "No local note matched \""@ + query
            + "\". Try a name, place, event, or phrase used in the vault."@
    } else if count == 1 {
        "One local note matched. Its passage is shown below without adding new lore."@
    } else {
        decimal(count)
            + " local notes matched. Passages are ordered by textual match and source authority; no canon decision has been made."@
    }
}

impl Turn {
    pub fn user(id: usize, text: String) -> (r: Turn)
        ensures
            r.id == id,
            r.role == Role::User,
            r.text@ == text@,
            r.sources@.len() == 0,
    {
        Turn { id, role: Role::User, text, sources: Vec::new() }
    }

    /// The assistant's turn presenting retrieved notes without adding lore.
    pub fn retrieval(id: usize, query: &str, sources: Vec<SearchHit>) -> (r: Turn)
        ensures
            r.id == id,
            r.role == Role::Assistant,
            r.text@ == retrieval_text(query@, sources@.len()),
            r.sources@ == sources@,
    {
        let count = sources.len();
        let text = if count == 0 {
            let mut t = String::from_str("No local note matched \"");
            t.append(query);
            t.append("\". Try a name, place, event, or phrase used in the vault.");
            t
        } else if count == 1 {
            String::from_str("One local note matched. Its passage is shown below without adding new lore.")
        } else {
            let mut t = string_of(&decimal_chars(count));
            t.append(
                " local notes matched. Passages are ordered by textual match and source authority; no canon decision has been made.",
            );
            t
        };
        Turn { id, role: Role::Assistant, text, sources }
    }
}

} // verus!
