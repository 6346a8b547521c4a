//! What each argument of a command line is, by where it stands, and what they come to.
use vstd::prelude::*;

use crate::cli::{answer, unread, Answer, Options, Reading};
use crate::policy::Policy;

verus! {

/// No `--` stands before the argument at `i`.
pub open spec fn among_options(args: Seq<Option<Seq<char>>>, i: int) -> bool {
    forall|j: int| 0 <= j < i ==> #[trigger] args[j] != Some("--"@)
}

/// The argument at `i` is what `--policy` is set to.
pub open spec fn is_value(args: Seq<Option<Seq<char>>>, i: int) -> bool {
    among_options(args, i) && i > 0 && args[i - 1] == Some("--policy"@)
}

/// The argument at `i` is this option.
pub open spec fn is_option(args: Seq<Option<Seq<char>>>, i: int, text: Seq<char>) -> bool {
    among_options(args, i) && !is_value(args, i) && args[i] == Some(text)
}

/// The word looks like an option. A dash on its own does not.
pub open spec fn dashed(word: Option<Seq<char>>) -> bool {
    word is Some && word->0.len() > 0 && word->0[0] == '-' && word->0 != "-"@
}

/// The argument at `i` is an input path.
pub open spec fn is_path(args: Seq<Option<Seq<char>>>, i: int) -> bool {
    !among_options(args, i) || !is_value(args, i) && !dashed(args[i])
}

/// The argument at `i` looks like an option and is none.
pub open spec fn is_unknown(args: Seq<Option<Seq<char>>>, i: int) -> bool {
    &&& among_options(args, i) && !is_value(args, i) && dashed(args[i])
    &&& args[i] != Some("--"@) && args[i] != Some("--policy"@) && args[i] != Some("--stats"@)
    &&& args[i] != Some("--help"@) && args[i] != Some("-h"@)
}

/// The word names the policy.
pub open spec fn names(word: Option<Seq<char>>, policy: Policy) -> bool {
    match policy {
        Policy::Cost => word == Some("cost"@),
        Policy::Count => word == Some("count"@),
    }
}

/// What follows the argument at `i` names a policy.
pub open spec fn well_set(args: Seq<Option<Seq<char>>>, i: int) -> bool {
    i + 1 < args.len() && (names(args[i + 1], Policy::Cost) || names(args[i + 1], Policy::Count))
}

/// Some path stands before the argument at `i`.
pub open spec fn has_path(args: Seq<Option<Seq<char>>>, i: int) -> bool {
    exists|j: int| 0 <= j < i && #[trigger] is_path(args, j)
}

/// Nothing at `i` asks for help or is wrong.
pub open spec fn passes(args: Seq<Option<Seq<char>>>, i: int) -> bool {
    &&& !is_option(args, i, "--help"@) && !is_option(args, i, "-h"@)
    &&& is_option(args, i, "--policy"@) ==> well_set(args, i)
    &&& !is_unknown(args, i)
    &&& is_path(args, i) ==> !has_path(args, i)
}

/// Nothing before `n` asks for help or is wrong.
pub open spec fn all_pass(args: Seq<Option<Seq<char>>>, n: int) -> bool {
    forall|i: int| 0 <= i < n ==> #[trigger] passes(args, i)
}

/// Among the first `n` arguments, the last `--policy` names this policy, or there is none,
/// and cost decides.
pub open spec fn policy_told(args: Seq<Option<Seq<char>>>, n: int, policy: Policy) -> bool {
    ||| exists|i: int|
        0 <= i < n && #[trigger] is_option(args, i, "--policy"@) && names(args[i + 1], policy)
            && forall|j: int| i < j < n ==> !#[trigger] is_option(args, j, "--policy"@)
    ||| policy == Policy::Cost && forall|j: int|
        0 <= j < n ==> !#[trigger] is_option(args, j, "--policy"@)
}

/// `--stats` is among the first `n` arguments.
pub open spec fn stats_told(args: Seq<Option<Seq<char>>>, n: int) -> bool {
    exists|i: int| 0 <= i < n && #[trigger] is_option(args, i, "--stats"@)
}

/// The arguments ask to run with these options.
pub open spec fn asks_to_run(args: Seq<Option<Seq<char>>>, options: Options) -> bool {
    let n = args.len() as int;
    &&& all_pass(args, n)
    &&& options.input < n && is_path(args, options.input as int)
    &&& forall|i: int| 0 <= i < n && #[trigger] is_path(args, i) ==> i == options.input
    &&& policy_told(args, n, options.policy)
    &&& options.stats <==> stats_told(args, n)
}

/// The arguments ask for help before anything is wrong with them.
pub open spec fn asks_for_help(args: Seq<Option<Seq<char>>>) -> bool {
    exists|i: int|
        0 <= i < args.len() && #[trigger] all_pass(args, i) && (is_option(args, i, "--help"@)
            || is_option(args, i, "-h"@))
}

/// The first thing that is wrong with the arguments is at `i`, and the message says what.
pub open spec fn wrong_at(args: Seq<Option<Seq<char>>>, i: int, message: Seq<char>) -> bool {
    &&& all_pass(args, i)
    &&& {
        ||| is_option(args, i, "--policy"@) && !well_set(args, i) && message
            == "--policy requires cost or count"@
        ||| is_unknown(args, i) && message == "unknown option: "@ + args[i]->0
        ||| is_path(args, i) && has_path(args, i) && message == "expected exactly one input path"@
    }
}

/// The message says what is wrong with the arguments.
pub open spec fn is_wrong(args: Seq<Option<Seq<char>>>, message: Seq<char>) -> bool {
    ||| exists|i: int| 0 <= i < args.len() && #[trigger] wrong_at(args, i, message)
    ||| all_pass(args, args.len() as int) && !has_path(args, args.len() as int) && message
        == "missing input path"@
}

/// The answer is what the arguments ask for.
pub open spec fn answers(args: Seq<Option<Seq<char>>>, given: Answer) -> bool {
    match given {
        Answer::Help => asks_for_help(args),
        Answer::Run(options) => asks_to_run(args, options),
        Answer::Refuse(message) => is_wrong(args, message),
    }
}

/// What has been read of the first `n` arguments.
spec fn has_read(args: Seq<Option<Seq<char>>>, n: int, so_far: Reading) -> bool {
    &&& all_pass(args, n)
    &&& !is_value(args, n)
    &&& so_far.positional == !among_options(args, n)
    &&& so_far.input matches Some(input) ==> input < n && is_path(args, input as int)
    &&& forall|i: int|
        0 <= i < n && #[trigger] is_path(args, i) ==> so_far.input == Some(i as usize)
    &&& policy_told(args, n, so_far.policy)
    &&& so_far.stats <==> stats_told(args, n)
}

/// What the options look like.
proof fn lemma_dashes()
    ensures
        dashed(Some("--"@)),
        dashed(Some("--policy"@)),
        dashed(Some("--stats"@)),
        dashed(Some("--help"@)),
        dashed(Some("-h"@)),
        !dashed(Some("cost"@)),
        !dashed(Some("count"@)),
        "cost"@ != "count"@,
        "--"@ != "--policy"@,
        "--"@ != "--stats"@,
        "--"@ != "--help"@,
        "--"@ != "-h"@,
        "--policy"@ != "--stats"@,
        "--policy"@ != "--help"@,
        "--policy"@ != "-h"@,
        "--stats"@ != "--help"@,
        "--stats"@ != "-h"@,
{
    reveal_strlit("-");
    reveal_strlit("--");
    reveal_strlit("--policy");
    reveal_strlit("--stats");
    reveal_strlit("--help");
    reveal_strlit("-h");
    reveal_strlit("cost");
    reveal_strlit("count");
    assert("cost"@.len() != "count"@.len());
    assert("--policy"@.len() == 8 && "--stats"@.len() == 7 && "--help"@.len() == 6 && "-h"@.len()
        == 2 && "--"@.len() == 2 && "-"@.len() == 1);
    assert("--"@[1] == '-' && "-h"@[1] == 'h');
}

/// The argument at `n` neither sets nor names a policy.
proof fn lemma_step(args: Seq<Option<Seq<char>>>, n: int, so_far: Reading, next: Reading)
    requires
        0 <= n < args.len(),
        has_read(args, n, so_far),
        passes(args, n),
        !is_option(args, n, "--policy"@),
        next.policy == so_far.policy,
        next.positional == (so_far.positional || args[n] == Some("--"@)),
        next.stats == (so_far.stats || is_option(args, n, "--stats"@)),
        is_path(args, n) ==> next.input == Some(n as usize) && n <= usize::MAX,
        !is_path(args, n) ==> next.input == so_far.input,
    ensures
        has_read(args, n + 1, next),
{
    lemma_dashes();
    assert(among_options(args, n + 1) <==> among_options(args, n) && args[n] != Some("--"@)) by {
        if among_options(args, n + 1) {
            assert(args[n] != Some("--"@));
        }
    }
    assert(policy_told(args, n + 1, next.policy)) by {
        if exists|i: int|
            0 <= i < n && #[trigger] is_option(args, i, "--policy"@) && names(
                args[i + 1],
                so_far.policy,
            ) && forall|j: int| i < j < n ==> !#[trigger] is_option(args, j, "--policy"@) {
            let i = choose|i: int|
                0 <= i < n && #[trigger] is_option(args, i, "--policy"@) && names(
                    args[i + 1],
                    so_far.policy,
                ) && forall|j: int| i < j < n ==> !#[trigger] is_option(args, j, "--policy"@);
            assert(is_option(args, i, "--policy"@));
        }
    }
    assert(stats_told(args, n + 1) <==> next.stats) by {
        if stats_told(args, n) {
            let i = choose|i: int| 0 <= i < n && #[trigger] is_option(args, i, "--stats"@);
            assert(is_option(args, i, "--stats"@));
        }
    }
    assert forall|i: int| 0 <= i < n + 1 && #[trigger] is_path(args, i) implies next.input == Some(
        i as usize,
    ) by {
        if i < n && is_path(args, n) {
            assert(has_path(args, n));
        }
    }
}

/// `--policy` at `n`, and the name behind it, set the policy.
proof fn lemma_set(args: Seq<Option<Seq<char>>>, n: int, so_far: Reading, policy: Policy)
    requires
        0 <= n,
        n + 1 < args.len(),
        has_read(args, n, so_far),
        is_option(args, n, "--policy"@),
        names(args[n + 1], policy),
    ensures
        has_read(args, n + 2, Reading { policy, ..so_far }),
{
    let next = Reading { policy, ..so_far };
    lemma_dashes();
    assert(among_options(args, n + 1));
    assert(is_value(args, n + 1));
    assert(among_options(args, n + 2)) by {
        assert(args[n + 1] != Some("--"@));
    }
    assert(!is_path(args, n) && !is_path(args, n + 1));
    assert(passes(args, n));
    assert(passes(args, n + 1));
    assert forall|i: int| 0 <= i < n + 2 implies #[trigger] passes(args, i) by {}
    assert(policy_told(args, n + 2, policy)) by {
        assert(is_option(args, n, "--policy"@));
        assert forall|j: int| n < j < n + 2 implies !#[trigger] is_option(
            args,
            j,
            "--policy"@,
        ) by {}
    }
    assert(stats_told(args, n + 2) <==> stats_told(args, n)) by {
        if stats_told(args, n) {
            let i = choose|i: int| 0 <= i < n && #[trigger] is_option(args, i, "--stats"@);
            assert(is_option(args, i, "--stats"@));
        }
        if stats_told(args, n + 2) {
            let i = choose|i: int| 0 <= i < n + 2 && #[trigger] is_option(args, i, "--stats"@);
            assert(i < n);
        }
    }
    assert forall|i: int| 0 <= i < n + 2 && #[trigger] is_path(args, i) implies next.input == Some(
        i as usize,
    ) by {
        assert(i < n);
    }
}

/// Going on from what has been read answers what is asked.
proof fn lemma_reading(args: Seq<Option<Seq<char>>>, n: nat, so_far: Reading)
    requires
        n <= args.len() <= usize::MAX,
        has_read(args, n as int, so_far),
    ensures
        answers(args, answer(args, n, so_far)),
    decreases args.len() - n,
{
    let i = n as int;
    lemma_dashes();
    if n < args.len() {
        let word = args[i];
        let plain = !so_far.positional && word is Some;
        let text = word->0;
        if plain && (text == "--help"@ || text == "-h"@) {
            assert(all_pass(args, i));
            assert(is_option(args, i, "--help"@) || is_option(args, i, "-h"@));
        } else if plain && text == "--"@ {
            let next = Reading { positional: true, ..so_far };
            lemma_step(args, i, so_far, next);
            lemma_reading(args, n + 1, next);
        } else if plain && text == "--stats"@ {
            let next = Reading { stats: true, ..so_far };
            assert(is_option(args, i, "--stats"@));
            lemma_step(args, i, so_far, next);
            lemma_reading(args, n + 1, next);
        } else if plain && text == "--policy"@ {
            assert(is_option(args, i, "--policy"@));
            if well_set(args, i) {
                let policy = if names(args[i + 1], Policy::Cost) {
                    Policy::Cost
                } else {
                    Policy::Count
                };
                lemma_set(args, i, so_far, policy);
                lemma_reading(args, n + 2, Reading { policy, ..so_far });
            } else {
                assert(wrong_at(args, i, "--policy requires cost or count"@));
            }
        } else if plain && dashed(word) {
            assert(is_unknown(args, i));
            assert(wrong_at(args, i, "unknown option: "@ + text));
        } else {
            assert(is_path(args, i));
            if so_far.input is None {
                let next = Reading { input: Some(n as usize), ..so_far };
                assert(!has_path(args, i));
                lemma_step(args, i, so_far, next);
                lemma_reading(args, n + 1, next);
            } else {
                assert(is_path(args, so_far.input->0 as int));
                assert(has_path(args, i));
                assert(wrong_at(args, i, "expected exactly one input path"@));
            }
        }
    }
}

/// The command line is understood as a whole. It is run exactly if nothing in it is wrong
/// and one argument is the input path. The policy is the one behind the last `--policy`,
/// wherever the path stands, or cost without any. Help is given only before anything is
/// wrong. A refusal says what is wrong first.
pub proof fn lemma_understood(args: Seq<Option<Seq<char>>>)
    requires
        args.len() <= usize::MAX,
    ensures
        answers(args, answer(args, 0, unread())),
{
    assert(has_read(args, 0, unread()));
    lemma_reading(args, 0, unread());
}

} // verus!
