//! What the command line asks for.
use vstd::prelude::*;
use vstd::string::{StrSliceExecFns, StringExecFns};

use crate::catalog::same_text;
use crate::cli_laws::{answers, lemma_understood};
use crate::policy::Policy;

verus! {

/// What to run: the position of the input path among the arguments, the policy, and
/// whether to write diagnostics.
#[derive(Debug, Clone, Copy, PartialEq, Eq, Structural)]
pub struct Options {
    pub input: usize,
    pub policy: Policy,
    pub stats: bool,
}

/// What has been read of the arguments so far.
pub struct Reading {
    pub input: Option<usize>,
    pub policy: Policy,
    pub stats: bool,
    pub positional: bool,
}

/// What the arguments come to.
pub enum Answer {
    Help,
    Run(Options),
    Refuse(Seq<char>),
}

/// An argument that is not text stands for nothing but a path.
pub open spec fn words(args: Seq<Option<String>>) -> Seq<Option<Seq<char>>> {
    args.map_values(
        |arg: Option<String>|
            match arg {
                Some(text) => Some(text@),
                None => None,
            },
    )
}

/// The policy that a word names.
pub open spec fn named_policy(word: Option<Seq<char>>) -> Option<Policy> {
    if word == Some("cost"@) {
        Some(Policy::Cost)
    } else if word == Some("count"@) {
        Some(Policy::Count)
    } else {
        None
    }
}

/// The arguments from `i` on, after what has been read.
pub open spec fn answer(args: Seq<Option<Seq<char>>>, i: nat, so_far: Reading) -> Answer
    decreases args.len() - i,
{
    if i >= args.len() {
        match so_far.input {
            Some(input) => Answer::Run(
                Options { input, policy: so_far.policy, stats: so_far.stats },
            ),
            None => Answer::Refuse("missing input path"@),
        }
    } else {
        let word = args[i as int];
        let plain = !so_far.positional && word is Some;
        let text = word->0;
        if plain && (text == "--help"@ || text == "-h"@) {
            Answer::Help
        } else if plain && text == "--"@ {
            answer(args, i + 1, Reading { positional: true, ..so_far })
        } else if plain && text == "--stats"@ {
            answer(args, i + 1, Reading { stats: true, ..so_far })
        } else if plain && text == "--policy"@ {
            if i + 1 < args.len() && named_policy(args[(i + 1) as int]) is Some {
                answer(
                    args,
                    i + 2,
                    Reading { policy: named_policy(args[(i + 1) as int])->0, ..so_far },
                )
            } else {
                Answer::Refuse("--policy requires cost or count"@)
            }
        } else if plain && text.len() > 0 && text[0] == '-' && text != "-"@ {
            Answer::Refuse("unknown option: "@ + text)
        } else if so_far.input is None {
            answer(args, i + 1, Reading { input: Some(i as usize), ..so_far })
        } else {
            Answer::Refuse("expected exactly one input path"@)
        }
    }
}

/// Nothing read yet.
pub open spec fn unread() -> Reading {
    Reading { input: None, policy: Policy::Cost, stats: false, positional: false }
}

/// The policy that the word after `--policy` names.
fn policy_named(word: &Option<String>) -> (policy: Option<Policy>)
    ensures
        policy == named_policy(
            match *word {
                Some(text) => Some(text@),
                None => None,
            },
        ),
{
    match word {
        Some(text) => if same_text(text.as_str(), "cost") {
            Some(Policy::Cost)
        } else if same_text(text.as_str(), "count") {
            Some(Policy::Count)
        } else {
            None
        },
        None => None,
    }
}

/// Reads the arguments after the program's name. `None` asks for help; an error says
/// what is wrong. An argument that is not Unicode text is given as `None`.
pub fn options(args: &Vec<Option<String>>) -> (answered: Result<Option<Options>, String>)
    ensures
        answer(words(args@), 0, unread()) == (match answered {
            Ok(None) => Answer::Help,
            Ok(Some(options)) => Answer::Run(options),
            Err(message) => Answer::Refuse(message@),
        }),
        answers(
            words(args@),
            match answered {
                Ok(None) => Answer::Help,
                Ok(Some(options)) => Answer::Run(options),
                Err(message) => Answer::Refuse(message@),
            },
        ),
{
    let ghost all = words(args@);
    proof {
        assert(all.len() == args.len());
        lemma_understood(all);
    }
    let mut input: Option<usize> = None;
    let mut policy: Policy = Policy::Cost;
    let mut stats: bool = false;
    let mut positional: bool = false;
    let mut i: usize = 0;
    while i < args.len()
        invariant
            all == words(args@),
            i <= args.len(),
            answers(all, answer(all, 0, unread())),
            answer(all, 0, unread()) == answer(
                all,
                i as nat,
                Reading { input, policy, stats, positional },
            ),
        decreases args.len() - i,
    {
        proof {
            reveal_with_fuel(answer, 2);
        }
        if let Some(text) = &args[i] {
            assert(all[i as int] == Some(text@));
            let word: &str = text.as_str();
            if !positional {
                if same_text(word, "--help") || same_text(word, "-h") {
                    return Ok(None);
                }
                if same_text(word, "--") {
                    positional = true;
                    i = i + 1;
                    continue;
                }
                if same_text(word, "--stats") {
                    stats = true;
                    i = i + 1;
                    continue;
                }
                if same_text(word, "--policy") {
                    let named: Option<Policy> = if i + 1 < args.len() {
                        policy_named(&args[i + 1])
                    } else {
                        None
                    };
                    match named {
                        Some(chosen) => {
                            policy = chosen;
                        },
                        None => {
                            return Err("--policy requires cost or count".to_owned());
                        },
                    }
                    i = i + 2;
                    continue;
                }
                if !word.is_empty() && word.get_char(0) == '-' && !same_text(word, "-") {
                    return Err("unknown option: ".to_owned().concat(word));
                }
            }
        } else {
            assert(all[i as int] is None);
        }
        if input.is_some() {
            return Err("expected exactly one input path".to_owned());
        }
        input = Some(i);
        i = i + 1;
    }
    match input {
        Some(input) => Ok(Some(Options { input, policy, stats })),
        None => Err("missing input path".to_owned()),
    }
}

} // verus!
