//! What was asked for on the command line.

use crate::split::{number_in, parse_number};
use crate::text::{push_text, same_text};
use vstd::prelude::*;

verus! {

/// What to do.
#[derive(Debug, Clone, PartialEq, Eq)]
pub enum Command {
    Review { title: Option<String>, dry_run: bool },
    Land { pr: u64, skip_tests: bool, dry_run: bool },
    Status,
    InitHook,
    Help,
}

/// The model of a [`Command`].
pub enum CommandModel {
    Review { title: Option<Seq<char>>, dry_run: bool },
    Land { pr: u64, skip_tests: bool, dry_run: bool },
    Status,
    InitHook,
    Help,
}

impl DeepView for Command {
    type V = CommandModel;

    open spec fn deep_view(&self) -> CommandModel {
        match self {
            Command::Review { title, dry_run } => CommandModel::Review {
                title: title.deep_view(),
                dry_run: *dry_run,
            },
            Command::Land { pr, skip_tests, dry_run } => CommandModel::Land {
                pr: *pr,
                skip_tests: *skip_tests,
                dry_run: *dry_run,
            },
            Command::Status => CommandModel::Status,
            Command::InitHook => CommandModel::InitHook,
            Command::Help => CommandModel::Help,
        }
    }
}

/// What is shown for help.
pub const HELP: &'static str =
    "loot-first — the loot land-policy orchestrator (#218)\n\nUSAGE:\n  loot-first review [--title <t>] [--dry-run]\n  loot-first land --pr <n> [--skip-tests] [--dry-run]\n  loot-first status\n  loot-first init-hook\n\nloot itself never talks to GitHub; every gh/push call lives here.\nSee docs/agents/workflow.md for the full loop.";

/// The word behind the first `name`.
pub open spec fn flag_in(args: Seq<Seq<char>>, name: Seq<char>) -> Option<Seq<char>>
    decreases args.len(),
{
    if args.len() == 0 {
        None
    } else if args[0] == name {
        if args.len() > 1 {
            Some(args[1])
        } else {
            None
        }
    } else {
        flag_in(args.skip(1), name)
    }
}

/// What the words ask for.
pub open spec fn command_in(args: Seq<Seq<char>>) -> Result<CommandModel, Seq<char>> {
    if args.len() == 0 {
        Ok(CommandModel::Help)
    } else {
        let cmd = args[0];
        let rest = args.skip(1);
        if cmd == "review"@ {
            Ok(
                CommandModel::Review {
                    title: flag_in(rest, "--title"@),
                    dry_run: rest.contains("--dry-run"@),
                },
            )
        } else if cmd == "land"@ {
            match flag_in(rest, "--pr"@) {
                None => Err("usage: loot-first land --pr <n> [--skip-tests] [--dry-run]"@),
                Some(n) => match number_in(n) {
                    None => Err("--pr must be a number"@),
                    Some(pr) => Ok(
                        CommandModel::Land {
                            pr,
                            skip_tests: rest.contains("--skip-tests"@),
                            dry_run: rest.contains("--dry-run"@),
                        },
                    ),
                },
            }
        } else if cmd == "status"@ {
            Ok(CommandModel::Status)
        } else if cmd == "init-hook"@ {
            Ok(CommandModel::InitHook)
        } else if cmd == "help"@ || cmd == "--help"@ || cmd == "-h"@ {
            Ok(CommandModel::Help)
        } else {
            Err("unknown command '"@ + cmd + "' (try: review, land, status, init-hook)"@)
        }
    }
}

/// The word behind the first `name` among `args[1..]`.
fn flag_value(args: &Vec<String>, name: &str) -> (r: Option<String>)
    requires
        args@.len() > 0,
    ensures
        r.deep_view() == flag_in(args.deep_view().skip(1), name@),
{
    let ghost all = args.deep_view();
    let n: usize = args.len();
    let mut i: usize = 1;
    while i < n
        invariant
            n == args@.len(),
            1 <= i <= n,
            all == args.deep_view(),
            flag_in(all.skip(1), name@) == flag_in(all.skip(i as int), name@),
        decreases n - i,
    {
        proof {
            let t = all.skip(i as int);
            assert(t[0] == args@[i as int]@);
            assert(t.skip(1) =~= all.skip(i as int + 1));
        }
        if same_text(args[i].as_str(), name) {
            if i + 1 < n {
                assert(all.skip(i as int)[1] == args@[i + 1]@);
                return Some(args[i + 1].clone());
            }
            return None;
        }
        i = i + 1;
    }
    assert(all.skip(n as int) =~= Seq::<Seq<char>>::empty());
    None
}

fn has_flag(args: &Vec<String>, name: &str) -> (b: bool)
    requires
        args@.len() > 0,
    ensures
        b == args.deep_view().skip(1).contains(name@),
{
    let ghost rest = args.deep_view().skip(1);
    let n: usize = args.len();
    let mut i: usize = 1;
    while i < n
        invariant
            n == args@.len(),
            1 <= i <= n,
            rest == args.deep_view().skip(1),
            forall|j: int| 0 <= j < i - 1 ==> rest[j] != name@,
        decreases n - i,
    {
        assert(rest[i - 1] == args@[i as int]@);
        if same_text(args[i].as_str(), name) {
            return true;
        }
        i = i + 1;
    }
    false
}

/// What the words ask for. Without any, for help.
pub fn parse_command(args: &Vec<String>) -> (r: Result<Command, String>)
    ensures
        match r {
            Ok(c) => command_in(args.deep_view()) == Ok::<CommandModel, Seq<char>>(c.deep_view()),
            Err(e) => command_in(args.deep_view()) == Err::<CommandModel, Seq<char>>(e@),
        },
{
    let ghost all = args.deep_view();
    assert(all.len() == args@.len());
    if args.len() == 0 {
        return Ok(Command::Help);
    }
    let cmd = args[0].as_str();
    assert(all[0] == cmd@);
    if same_text(cmd, "review") {
        Ok(Command::Review { title: flag_value(args, "--title"), dry_run: has_flag(args, "--dry-run") })
    } else if same_text(cmd, "land") {
        match flag_value(args, "--pr") {
            None => Err("usage: loot-first land --pr <n> [--skip-tests] [--dry-run]".to_owned()),
            Some(n) => match parse_number(n.as_str()) {
                None => Err("--pr must be a number".to_owned()),
                Some(pr) => Ok(
                    Command::Land {
                        pr,
                        skip_tests: has_flag(args, "--skip-tests"),
                        dry_run: has_flag(args, "--dry-run"),
                    },
                ),
            },
        }
    } else if same_text(cmd, "status") {
        Ok(Command::Status)
    } else if same_text(cmd, "init-hook") {
        Ok(Command::InitHook)
    } else if same_text(cmd, "help") || same_text(cmd, "--help") || same_text(cmd, "-h") {
        Ok(Command::Help)
    } else {
        let mut e = "unknown command '".to_owned();
        push_text(&mut e, cmd);
        push_text(&mut e, "' (try: review, land, status, init-hook)");
        Err(e)
    }
}

/// A flag has the word behind its first place as its value, and none where nothing stands
/// behind it, or it does not occur.
pub proof fn law_flag_has_the_next_word(args: Seq<Seq<char>>, name: Seq<char>, i: int)
    requires
        0 <= i <= args.len(),
        forall|j: int| 0 <= j < i ==> #[trigger] args[j] != name,
        i < args.len() ==> args[i] == name,
    ensures
        i + 1 < args.len() ==> flag_in(args, name) == Some(args[i + 1]),
        i + 1 >= args.len() ==> flag_in(args, name) is None,
    decreases i,
{
    if i > 0 {
        let rest = args.skip(1);
        assert(args[0] != name);
        assert forall|j: int| 0 <= j < i - 1 implies #[trigger] rest[j] != name by {
            assert(rest[j] == args[j + 1]);
        }
        if i < args.len() {
            assert(rest[i - 1] == args[i]);
        }
        law_flag_has_the_next_word(rest, name, i - 1);
    }
}

/// A landing names its pull request by a number, and is refused without one. Tests are
/// skipped, and a run is dry, just where that is asked for.
pub proof fn law_landing_names_its_pr(rest: Seq<Seq<char>>)
    ensures
        ({
            let r = command_in(seq!["land"@] + rest);
            let n = flag_in(rest, "--pr"@);
            &&& r is Ok <==> n is Some && number_in(n->Some_0) is Some
            &&& r is Ok ==> r->Ok_0 == (CommandModel::Land {
                pr: number_in(n->Some_0)->Some_0,
                skip_tests: rest.contains("--skip-tests"@),
                dry_run: rest.contains("--dry-run"@),
            })
        }),
        command_in(seq!["review"@] + rest) == Ok::<CommandModel, Seq<char>>(
            CommandModel::Review { title: flag_in(rest, "--title"@), dry_run: rest.contains("--dry-run"@) },
        ),
{
    reveal_strlit("land");
    reveal_strlit("review");
    let a = seq!["land"@] + rest;
    let b = seq!["review"@] + rest;
    assert(a.skip(1) =~= rest);
    assert(b.skip(1) =~= rest);
    assert(a[0] == "land"@);
    assert(b[0] == "review"@);
    assert("land"@.len() != "review"@.len());
}

} // verus!
