//! The command line: which subcommand was asked for.

use vstd::prelude::*;

use crate::text::str_eq;

verus! {

/// A subcommand of the program.
#[derive(Debug, Clone, Copy, PartialEq, Eq)]
pub enum Cmd {
    /// Print "on" if Tailscale is running, "off" otherwise. Meant for the
    /// i3status-rust `toggle` block's `command_state`.
    Status,
    /// Open a rofi picker over the tailnet's peers and copy the chosen
    /// peer's DNS name to the clipboard.
    PeerPick,
}

/// The parsed command line.
#[derive(Debug)]
pub struct Cli {
    pub command: Cmd,
}

/// How clap refused a command line, or what it answers a request for help:
/// the text to print, the exit code, and whether the text goes to stderr.
#[derive(Debug)]
pub struct ClapRefusal {
    pub message: String,
    pub exit_code: i32,
    pub to_stderr: bool,
}

/// Why the command line was not turned into a `Cli`.
#[derive(Debug)]
pub enum CliError {
    /// clap refused the arguments, or was asked for help.
    Refused(ClapRefusal),
    /// clap accepted the arguments without naming a subcommand.
    MissingCommand,
    /// clap named a subcommand that the program does not have.
    UnknownCommand { name: String },
}

/// The outcome of parsing `args` (the program name first) with clap against
/// a command named `program`, described by `about`, that requires one of
/// `subcommands` (name and description): the name of the subcommand that
/// clap matched, if any, or clap's refusal as message, exit code and
/// whether it goes to stderr.
pub uninterp spec fn clap_outcome(
    program: Seq<char>,
    about: Seq<char>,
    subcommands: Seq<(Seq<char>, Seq<char>)>,
    args: Seq<Seq<char>>,
) -> Result<Option<Seq<char>>, (Seq<char>, i32, bool)>;

/// The view of an optional string.
pub open spec fn optional_view(s: Option<String>) -> Option<Seq<char>> {
    match s {
        Some(x) => Some(x@),
        None => None,
    }
}

/// The views of a sequence of strings.
pub open spec fn string_views(s: Seq<String>) -> Seq<Seq<char>> {
    s.map_values(|x: String| x@)
}

/// The views of subcommand names and descriptions.
pub open spec fn subcommand_views(s: Seq<(String, String)>) -> Seq<(Seq<char>, Seq<char>)> {
    s.map_values(|x: (String, String)| (x.0@, x.1@))
}

/// No two subcommands share a name.
pub open spec fn distinct_names(s: Seq<(Seq<char>, Seq<char>)>) -> bool {
    forall|i: int, j: int| 0 <= i < j < s.len() ==> (#[trigger] s[i]).0 != (#[trigger] s[j]).0
}

/// A command line of one argument that asks for help: `-h`, `--help` or
/// `help`.
pub open spec fn asks_for_help(args: Seq<Seq<char>>) -> bool {
    args.len() == 2 && (args[1] == "-h"@ || args[1] == "--help"@ || args[1] == "help"@)
}

/// A command line of one argument that is the name of one of the
/// subcommands and does not start with `-`.
pub open spec fn names_a_subcommand(args: Seq<Seq<char>>, subcommands: Seq<(Seq<char>, Seq<char>)>) -> bool {
    &&& args.len() == 2
    &&& args[1].len() > 0
    &&& args[1][0] != '-'
    &&& exists|i: int| 0 <= i < subcommands.len() && (#[trigger] subcommands[i]).0 == args[1]
}

/// The view of a clap outcome.
pub open spec fn outcome_view(r: Result<Option<String>, ClapRefusal>) -> Result<
    Option<Seq<char>>,
    (Seq<char>, i32, bool),
> {
    match r {
        Ok(name) => Ok(optional_view(name)),
        Err(e) => Err((e.message@, e.exit_code, e.to_stderr)),
    }
}

/// Parses `args` (the program name first) with clap, by
/// `Command::try_get_matches_from` on a command that requires a subcommand,
/// and gives the name of the subcommand that was matched
/// (`ArgMatches::subcommand_name`), or clap's error as its rendered text,
/// `Error::exit_code` and `Error::use_stderr`. Trusted: the contract claims
/// that the outcome depends on the arguments alone, as `clap_outcome` names
/// it; that a name given back is one of `subcommands`; and, as clap
/// documents, that the exit code is 2 for text to stderr and 0 otherwise.
/// Of which command lines clap accepts, it claims only what clap's default
/// configuration gives for a single argument: `-h`, `--help` and `help` ask
/// for the help text (clap's own help flag and help subcommand, of kind
/// `ErrorKind::DisplayHelp`), which goes to stdout with exit code 0; the
/// name of a subcommand matches that subcommand. Clap's debug
/// assertions reject a command with two subcommands of one name, or one
/// named `help` beside the help subcommand that clap adds; the `requires`
/// leaves those out.
#[verifier::external_body]
fn clap_match_subcommand(
    program: &str,
    about: &str,
    subcommands: &Vec<(String, String)>,
    args: &Vec<String>,
) -> (r: Result<Option<String>, ClapRefusal>)
    requires
        distinct_names(subcommand_views(subcommands@)),
        forall|i: int| 0 <= i < subcommands@.len() ==> (#[trigger] subcommands@[i]).0@ != "help"@,
    ensures
        outcome_view(r) == clap_outcome(
            program@,
            about@,
            subcommand_views(subcommands@),
            string_views(args@),
        ),
        r matches Ok(Some(name)) ==> exists|i: int|
            0 <= i < subcommands@.len() && (#[trigger] subcommands@[i]).0@ == name@,
        r matches Err(e) ==> e.exit_code == if e.to_stderr { 2i32 } else { 0i32 },
        asks_for_help(string_views(args@)) ==> r is Err && !r->Err_0.to_stderr && r->Err_0.exit_code
            == 0,
        names_a_subcommand(string_views(args@), subcommand_views(subcommands@)) ==> r is Ok
            && optional_view(r->Ok_0) == Some(args@[1]@),
{
    let command = clap::Command::new(program.to_string()).about(about.to_string())
        .subcommand_required(true).arg_required_else_help(true)
        .subcommands(subcommands.iter().map(|(name, text)| clap::Command::new(name.clone()).about(text.clone())));
    match command.try_get_matches_from(args.iter()) {
        Ok(matches) => Ok(matches.subcommand_name().map(|name| name.to_string())),
        Err(e) => Err(ClapRefusal { message: e.render().to_string(), exit_code: e.exit_code(), to_stderr: e.use_stderr() }),
    }
}

/// The name under which the program describes itself.
pub open spec fn program_name() -> Seq<char> {
    "i3tailscale"@
}

/// The description of the program.
pub open spec fn program_about() -> Seq<char> {
    "Tailscale status/toggle/peer-picker for i3status-rust"@
}

/// The description of the `status` subcommand.
pub open spec fn status_about() -> Seq<char> {
    "Print \"on\" if Tailscale is running, \"off\" otherwise. Meant for the i3status-rust `toggle` block's `command_state`"@
}

/// The description of the `peer-pick` subcommand.
pub open spec fn peer_pick_about() -> Seq<char> {
    "Open a rofi picker over the tailnet's peers and copy the chosen peer's DNS name to the clipboard"@
}

/// The subcommands, by name and description.
pub open spec fn subcommand_table() -> Seq<(Seq<char>, Seq<char>)> {
    seq![("status"@, status_about()), ("peer-pick"@, peer_pick_about())]
}

/// The subcommand that a name stands for.
pub open spec fn command_named(name: Seq<char>) -> Option<Cmd> {
    if name == "status"@ {
        Some(Cmd::Status)
    } else if name == "peer-pick"@ {
        Some(Cmd::PeerPick)
    } else {
        None
    }
}

/// The subcommand that `name` stands for.
pub fn command_from_name(name: &str) -> (r: Option<Cmd>)
    ensures
        r == command_named(name@),
{
    if str_eq(name, "status") {
        Some(Cmd::Status)
    } else if str_eq(name, "peer-pick") {
        Some(Cmd::PeerPick)
    } else {
        None
    }
}

impl Cli {
    /// Parses the command line `args`, the program name first.
    pub fn try_parse_from(args: Vec<String>) -> (r: Result<Cli, CliError>)
        ensures
            match clap_outcome(
                program_name(),
                program_about(),
                subcommand_table(),
                string_views(args@),
            ) {
                Err((message, exit_code, to_stderr)) => r matches Err(CliError::Refused(e))
                    && e.message@ == message && e.exit_code == exit_code && e.to_stderr
                    == to_stderr,
                Ok(None) => r matches Err(CliError::MissingCommand),
                Ok(Some(name)) => match command_named(name) {
                    Some(command) => r matches Ok(cli) && cli.command == command,
                    None => r matches Err(CliError::UnknownCommand { name: n }) && n@ == name,
                },
            },
            args@.len() == 2 && args@[1]@ == "status"@ ==> (r matches Ok(cli) && cli.command
                == Cmd::Status),
            args@.len() == 2 && args@[1]@ == "peer-pick"@ ==> (r matches Ok(cli) && cli.command
                == Cmd::PeerPick),
            asks_for_help(string_views(args@)) ==> (r matches Err(CliError::Refused(e))
                && !e.to_stderr && e.exit_code == 0),
    {
        let mut subcommands: Vec<(String, String)> = Vec::new();
        subcommands.push(("status".to_string(), "Print \"on\" if Tailscale is running, \"off\" otherwise. Meant for the i3status-rust `toggle` block's `command_state`".to_string()));
        subcommands.push(("peer-pick".to_string(), "Open a rofi picker over the tailnet's peers and copy the chosen peer's DNS name to the clipboard".to_string()));
        assert(subcommand_views(subcommands@) =~= subcommand_table());
        proof {
            reveal_strlit("status");
            reveal_strlit("peer-pick");
            reveal_strlit("help");
            assert("status"@ != "peer-pick"@ && "status"@ != "help"@ && "peer-pick"@ != "help"@) by {
                assert("status"@.len() != "peer-pick"@.len());
                assert("status"@.len() != "help"@.len());
                assert("peer-pick"@.len() != "help"@.len());
            }
            assert(subcommands@[0].0@ == "status"@);
            assert(subcommands@[1].0@ == "peer-pick"@);
            let views = string_views(args@);
            if args@.len() == 2 && args@[1]@ == "status"@ {
                assert(views[1] == args@[1]@);
                assert(views[1][0] == 's');
                assert(subcommand_views(subcommands@)[0].0 == views[1]);
            }
            if args@.len() == 2 && args@[1]@ == "peer-pick"@ {
                assert(views[1] == args@[1]@);
                assert(views[1][0] == 'p');
                assert(subcommand_views(subcommands@)[1].0 == views[1]);
            }
            if args@.len() == 2 {
                assert(views[1] == args@[1]@);
            }
        }
        match clap_match_subcommand(
            "i3tailscale",
            "Tailscale status/toggle/peer-picker for i3status-rust",
            &subcommands,
            &args,
        ) {
            Err(e) => Err(CliError::Refused(e)),
            Ok(None) => Err(CliError::MissingCommand),
            Ok(Some(name)) => match command_from_name(name.as_str()) {
                Some(command) => Ok(Cli { command }),
                None => Err(CliError::UnknownCommand { name }),
            },
        }
    }
}

} // verus!
