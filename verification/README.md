# i3tailscale

A helper for [i3status-rust](https://github.com/greshake/i3status-rust) that
adds Tailscale support to an i3/sway status bar: it shows whether Tailscale is
up, and opens a rofi picker over the tailnet's peers that copies the picked
peer's DNS name (Enter) or Tailscale IPv4 address (Alt+Enter).

The library under `src/` is verified with Verus:

- `tailscale.rs`: the status (`Status`, `Peer`, `PeerMap`), the peer list
  ordered by host name, the lookup by DNS name, and the picker's lines.
- `listing.rs`: the order of the picker list (by host name, this device after
  the peers of its host name, then by contents), a total order.
- `pick.rs`: what the `status` command prints, which DNS name a picked line
  names, and what is copied for it.
- `ipv4.rs`: recognition of dotted-decimal IPv4 addresses.
- `text.rs`: code-point order, whitespace trimming and tab-separated fields.
- `cli.rs`: the subcommands, parsed with clap.

`app/main.rs` is the program around it: it runs `tailscale status --json`,
reads it with serde, talks to rofi and owns the clipboard.
