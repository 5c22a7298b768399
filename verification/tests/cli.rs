use i3tailscale::cli::{Cli, CliError, Cmd, command_from_name};

fn args(list: &[&str]) -> Vec<String> {
    list.iter().map(|s| s.to_string()).collect()
}

#[test]
fn parses_status_subcommand() {
    let cli = Cli::try_parse_from(args(&["i3tailscale", "status"])).unwrap();
    assert!(matches!(cli.command, Cmd::Status));
}

#[test]
fn parses_peer_pick_subcommand() {
    let cli = Cli::try_parse_from(args(&["i3tailscale", "peer-pick"])).unwrap();
    assert!(matches!(cli.command, Cmd::PeerPick));
}

#[test]
fn rejects_unknown_subcommand() {
    let result = Cli::try_parse_from(args(&["i3tailscale", "bogus"]));
    assert!(result.is_err());
}

#[test]
fn refusal_goes_to_stderr_with_usage_code() {
    match Cli::try_parse_from(args(&["i3tailscale", "bogus"])) {
        Err(CliError::Refused(refusal)) => {
            assert!(refusal.to_stderr);
            assert_eq!(refusal.exit_code, 2);
            assert!(refusal.message.contains("bogus"));
        }
        _ => panic!("expected clap to refuse an unknown subcommand"),
    }
}

#[test]
fn no_subcommand_is_refused_with_help() {
    match Cli::try_parse_from(args(&["i3tailscale"])) {
        Err(CliError::Refused(refusal)) => {
            assert!(refusal.message.contains("peer-pick"));
            assert!(refusal.message.contains("status"));
        }
        _ => panic!("expected a refusal that shows the help"),
    }
}

#[test]
fn help_request_goes_to_stdout() {
    match Cli::try_parse_from(args(&["i3tailscale", "--help"])) {
        Err(CliError::Refused(refusal)) => {
            assert!(!refusal.to_stderr);
            assert_eq!(refusal.exit_code, 0);
            assert!(refusal.message.contains("Tailscale status/toggle/peer-picker for i3status-rust"));
        }
        _ => panic!("expected the help text"),
    }
}

#[test]
fn command_names_map_to_commands() {
    assert_eq!(command_from_name("status"), Some(Cmd::Status));
    assert_eq!(command_from_name("peer-pick"), Some(Cmd::PeerPick));
    assert_eq!(command_from_name("Status"), None);
    assert_eq!(command_from_name(""), None);
}
