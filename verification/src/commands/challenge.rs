//! The `challenge` command, which lists the challenges.

use crate::commands::Token;
use crate::parser::views;
use crate::sock::Sock;
use crate::text::concat;
use vstd::prelude::*;
use vstd::seq_lib::lemma_flatten_concat;

verus! {

broadcast use vstd::string::group_string_axioms;

/// A challenge, as described in its configuration file.
pub struct Challenge {
    pub name: String,
    pub description: String,
}

/// The challenges that can be listed.
pub struct ChallengeCommand {
    pub challenges: Vec<Challenge>,
}

/// The names of the challenges, one after another.
pub open spec fn names_text(challenges: Seq<Challenge>) -> Seq<char>
    decreases challenges.len(),
{
    if challenges.len() == 0 {
        Seq::empty()
    } else {
        names_text(challenges.drop_last()) + challenges.last().name@
    }
}

/// The answer to `challenge` with the parameters `params`.
pub open spec fn list_text(challenges: Seq<Challenge>, params: Seq<Seq<char>>) -> Seq<char> {
    if params.len() == 0 {
        "Usage: challenge [COMMAND] [OPTION]...\nFor more info, type: challenge -h"@
    } else if params[0] == "list"@ {
        "List of challenges:\n"@ + names_text(challenges)
    } else if params[0] == "-h"@ {
        "Challenge help:\n\t"@
    } else {
        "Not recognized: '"@ + params[0] + "'."@
    }
}

impl ChallengeCommand {
    /// A command that lists `challenges`, which the caller has read from the
    /// challenges' configuration.
    pub fn new(challenges: Vec<Challenge>) -> (c: Box<ChallengeCommand>)
        ensures
            c.challenges@ == challenges@,
    {
        Box::new(ChallengeCommand { challenges: challenges })
    }

    fn list(&self, token: &Token, _sock: &mut Sock) -> (s: String)
        ensures
            s@ == list_text(self.challenges@, views(token.parameters@)),
            *final(_sock) == *old(_sock),
    {
        if token.parameters.len() == 0 {
            return "Usage: challenge [COMMAND] [OPTION]...\nFor more info, type: challenge -h".to_string();
        }
        let p = token.parameters[0];
        if crate::text::same_chars(p, "list") {
            let mut output: String = "List of challenges:\n".to_string();
            for i in 0..self.challenges.len()
                invariant
                    output@ == "List of challenges:\n"@ + names_text(self.challenges@.take(i as int)),
            {
                output.append(self.challenges[i].name.as_str());
                assert(self.challenges@.take(i + 1).drop_last() =~= self.challenges@.take(i as int));
            }
            assert(self.challenges@.take(self.challenges.len() as int) =~= self.challenges@);
            output
        } else if crate::text::same_chars(p, "-h") {
            "Challenge help:\n\t".to_string()
        } else {
            let a = concat("Not recognized: '", p);
            concat(a.as_str(), "'.")
        }
    }

    /// Answers `challenge`; refuses any other name with `Err(false)`.
    pub fn handle(&mut self, name: &str, token: &Token, sock: &mut Sock) -> (r: Result<String, bool>)
        ensures
            name@ == "challenge"@ ==> (r matches Ok(s) && s@ == list_text(old(self).challenges@, views(token.parameters@))),
            name@ != "challenge"@ ==> r == Err::<String, bool>(false),
            final(self).challenges@ == old(self).challenges@,
            *final(sock) == *old(sock),
    {
        if crate::text::same_chars(name, "challenge") {
            Ok(self.list(token, sock))
        } else {
            Err(false)
        }
    }
}

/// The challenges' names, in order.
pub open spec fn challenge_names(challenges: Seq<Challenge>) -> Seq<Seq<char>> {
    challenges.map_values(|c: Challenge| c.name@)
}

/// The names of the challenges, one after another, are all the names concatenated.
proof fn lemma_names_text_flatten(challenges: Seq<Challenge>)
    ensures
        names_text(challenges) == challenge_names(challenges).flatten(),
    decreases challenges.len(),
{
    if challenges.len() > 0 {
        lemma_names_text_flatten(challenges.drop_last());
        let names = challenge_names(challenges);
        assert(names.drop_last() =~= challenge_names(challenges.drop_last()));
        assert(names =~= names.drop_last().push(challenges.last().name@));
        names.drop_last().lemma_flatten_push(challenges.last().name@);
    } else {
        assert(challenge_names(challenges) =~= Seq::<Seq<char>>::empty());
    }
}

/// `challenge list` answers the header and then the name of every challenge, in order:
/// for each challenge, the names of those before it, its own name, then the names of
/// those after it, and nothing else.
pub proof fn lemma_list_names_every_challenge(challenges: Seq<Challenge>, params: Seq<Seq<char>>, i: int)
    requires
        params.len() > 0,
        params[0] == "list"@,
        0 <= i < challenges.len(),
    ensures
        list_text(challenges, params) == "List of challenges:\n"@ + challenge_names(challenges).flatten(),
        list_text(challenges, params) == "List of challenges:\n"@ + challenge_names(challenges.take(i)).flatten()
            + challenges[i].name@ + challenge_names(challenges.skip(i + 1)).flatten(),
        list_text(challenges, params).len() == "List of challenges:\n"@.len() + challenge_names(challenges.take(i)).flatten().len()
            + challenges[i].name@.len() + challenge_names(challenges.skip(i + 1)).flatten().len(),
{
    lemma_names_text_flatten(challenges);
    let names = challenge_names(challenges);
    let before = challenge_names(challenges.take(i));
    let after = challenge_names(challenges.skip(i + 1));
    let one = seq![challenges[i].name@];
    assert(names =~= before + one + after);
    lemma_flatten_concat(before + one, after);
    lemma_flatten_concat(before, one);
    one.lemma_flatten_singleton();
}

} // verus!
