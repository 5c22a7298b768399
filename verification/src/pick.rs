//! The decisions of the status command and of the peer picker: what the
//! status bar prints, which peer a picked line names, and what is copied.

use vstd::prelude::*;

use crate::listing::{entry_view, entry_views, lemma_listing_order_total, listing_order, EntryView};
use crate::ipv4::is_ipv4_text;
use crate::tailscale::{lemma_first_ipv4_is_earliest, first_ipv4, first_with_dns_name, peer_line, status_label, Peer, Status};
use crate::text::{
    all_white_space, chars_of, field_end, has_non_white_space, is_white_space,
    lemma_field_len_prefix, lemma_trim_end_white_tail, lemma_trim_start_within, second_field,
    tab_free, trim, trim_bounds, trim_start,
};

verus! {

/// The exit code with which rofi reports its first custom key binding,
/// bound to Alt+Return by the picker.
pub const ROFI_CUSTOM_1_EXIT_CODE: i32 = 10;

/// What the `status` command prints for i3status-rust's `toggle` block.
///
/// The block reads `command_state` by presence of (trimmed) stdout, not by
/// its text: any non-empty output means "on", empty output means "off". So
/// this is `None` when Tailscale is not running, never the text "off".
pub fn status_output(status: &Status) -> (r: Option<&'static str>)
    ensures
        match r {
            Some(text) => status.backend_state@ == "Running"@ && text@ == "on"@,
            None => status.backend_state@ != "Running"@,
        },
{
    if status.is_running() {
        Some("on")
    } else {
        None
    }
}

/// Why a pick cannot be copied.
#[derive(Debug)]
pub enum PickError {
    /// No device has the picked DNS name.
    NoSuchPeer { name: String },
    /// The picked device has no Tailscale IPv4 address.
    NoIpv4Address { host_name: String },
}

/// The text of a pick error.
pub open spec fn error_text(e: PickError) -> Seq<char> {
    match e {
        PickError::NoSuchPeer { name } => "no peer named '"@ + name@ + "' in tailscale status"@,
        PickError::NoIpv4Address { host_name } => "peer '"@ + host_name@
            + "' has no Tailscale IPv4 address"@,
    }
}

impl PickError {
    /// The message that reports the error.
    pub fn message(&self) -> (text: String)
        ensures
            text@ == error_text(*self),
    {
        let mut text = String::new();
        match self {
            PickError::NoSuchPeer { name } => {
                text.append("no peer named '");
                text.append(name.as_str());
                text.append("' in tailscale status");
            },
            PickError::NoIpv4Address { host_name } => {
                text.append("peer '");
                text.append(host_name.as_str());
                text.append("' has no Tailscale IPv4 address");
            },
        }
        assert(text@ =~= error_text(*self));
        text
    }
}

/// What is copied for `peer` after rofi exited with `rofi_exit_code`: the
/// IPv4 address on Alt+Return (`None` where the peer has none), the DNS
/// name on anything else.
pub open spec fn copy_text(peer: Peer, rofi_exit_code: Option<i32>) -> Option<Seq<char>> {
    if rofi_exit_code == Some(ROFI_CUSTOM_1_EXIT_CODE) {
        first_ipv4(peer.ip_texts())
    } else {
        Some(peer.dns_name@)
    }
}

/// What is copied for a peer: on any exit code but 10 its DNS name; on 10
/// (Alt+Return) the earliest entry of its address list that is an IPv4
/// address, and nothing (an error) only where no entry is one. Its online
/// state plays no part.
pub proof fn lemma_copy_text_law(peer: Peer, rofi_exit_code: Option<i32>, online: bool)
    ensures
        rofi_exit_code != Some(10i32) ==> copy_text(peer, rofi_exit_code) == Some(peer.dns_name@),
        rofi_exit_code == Some(10i32) ==> (copy_text(peer, rofi_exit_code) is Some <==> exists|i: int|
            0 <= i < peer.ip_texts().len() && is_ipv4_text(#[trigger] peer.ip_texts()[i])),
        rofi_exit_code == Some(10i32) ==> (copy_text(peer, rofi_exit_code) matches Some(ip)
            ==> exists|k: int|
            0 <= k < peer.ip_texts().len() && peer.ip_texts()[k] == ip && is_ipv4_text(ip)
                && forall|j: int| 0 <= j < k ==> !is_ipv4_text(#[trigger] peer.ip_texts()[j])),
        copy_text(
            Peer {
                host_name: peer.host_name,
                dns_name: peer.dns_name,
                online,
                tailscale_ips: peer.tailscale_ips,
            },
            rofi_exit_code,
        ) == copy_text(peer, rofi_exit_code),
{
    lemma_first_ipv4_is_earliest(peer.ip_texts());
}

/// rofi dmenu exit codes: 0 = Enter (normal accept), 10 = custom-1 (bound
/// to Alt+Return by the picker). Anything else falls back to the
/// default Enter behavior (copy DNS name).
pub fn value_to_copy(peer: &Peer, rofi_exit_code: Option<i32>) -> (r: Result<&str, PickError>)
    ensures
        match copy_text(*peer, rofi_exit_code) {
            Some(text) => r matches Ok(value) && value@ == text,
            None => r matches Err(PickError::NoIpv4Address { host_name }) && host_name@
                == peer.host_name@,
        },
{
    let alt_enter = match rofi_exit_code {
        Some(code) => code == ROFI_CUSTOM_1_EXIT_CODE,
        None => false,
    };
    if alt_enter {
        match peer.ipv4() {
            Some(ip) => Ok(ip),
            None => Err(PickError::NoIpv4Address { host_name: peer.host_name.clone() }),
        }
    } else {
        Ok(peer.dns_name.as_str())
    }
}

/// The DNS name that a line picked in rofi names: `None` when the pick is
/// empty once trimmed; otherwise the second tab-separated field of the
/// trimmed line (the picker shows "hostname\tdns_name\tstatus_label"), or
/// the whole trimmed text where it holds no tab (a name typed in by hand).
pub open spec fn picked_name(choice: Seq<char>) -> Option<Seq<char>> {
    let t = trim(choice);
    if t.len() == 0 {
        None
    } else {
        match second_field(t) {
            Some(field) => Some(field),
            None => Some(t),
        }
    }
}

/// A line of the picker, as rofi hands it back (followed by whitespace such
/// as its newline), names the DNS name of the device it shows, provided
/// that neither the host name nor the DNS name holds a tab and that the host
/// name is not blank.
pub proof fn lemma_picked_line_names_its_device(e: EntryView, tail: Seq<char>)
    requires
        tab_free(e.0),
        has_non_white_space(e.0),
        tab_free(e.2),
        all_white_space(tail),
    ensures
        picked_name(peer_line(e) + tail) == Some(e.2),
{
    reveal_strlit("\t");
    reveal_strlit("(this device)");
    reveal_strlit("online");
    reveal_strlit("offline");
    let tab = seq!['\t'];
    assert("\t"@ =~= tab);
    let h = e.0;
    let d = e.2;
    let label = status_label(e);
    assert(label.len() > 0 && !is_white_space(label.last()));
    let shown = tab + d + tab + label;
    let choice = peer_line(e) + tail;
    assert(choice =~= h + (shown + tail));
    lemma_trim_start_within(h, shown + tail);
    let m = choose|m: int| 0 <= m < h.len() && trim_start(h) == h.skip(m);
    let h1 = trim_start(h);
    assert(tab_free(h1)) by {
        assert forall|i: int| 0 <= i < h1.len() implies #[trigger] h1[i] != '\t' by {
            assert(h1[i] == h[m + i]);
        }
    }
    assert(h1 + (shown + tail) =~= (h1 + shown) + tail);
    lemma_trim_end_white_tail(h1 + shown, tail);
    assert((h1 + shown).last() == label.last());
    let t = h1 + shown;
    assert(trim(choice) == t);
    assert(t =~= h1 + tab + (d + tab + label));
    lemma_field_len_prefix(h1, d + tab + label);
    assert(t.skip(h1.len() as int + 1) =~= d + tab + label);
    lemma_field_len_prefix(d, label);
    assert((d + tab + label).take(d.len() as int) =~= d);
}

/// The DNS name that the picked line `choice` names.
pub fn picked_dns_name(choice: &str) -> (r: Option<&str>)
    ensures
        match r {
            Some(name) => picked_name(choice@) == Some(name@),
            None => picked_name(choice@) is None,
        },
{
    let v = chars_of(choice);
    let (start, end) = trim_bounds(&v);
    let ghost t = v@.subrange(start as int, end as int);
    if start == end {
        return None;
    }
    let tab = field_end(&v, start, end);
    if tab == end {
        return Some(choice.substring_char(start, end));
    }
    let field_start: usize = tab + 1;
    let field_stop = field_end(&v, field_start, end);
    proof {
        assert(t.skip(tab - start + 1) =~= v@.subrange(field_start as int, end as int));
        assert(t.skip(tab - start + 1).take(field_stop - field_start) =~= v@.subrange(
            field_start as int,
            field_stop as int,
        ));
    }
    Some(choice.substring_char(field_start, field_stop))
}

/// What a pick comes to: `None` where it fails; otherwise what is copied,
/// if anything.
pub open spec fn pick_copy(status: Status, choice: Seq<char>, rofi_exit_code: Option<i32>) -> Option<
    Option<Seq<char>>,
> {
    match picked_name(choice) {
        None => Some(None),
        Some(name) => match first_with_dns_name(status.devices(), name) {
            None => None,
            Some(peer) => match copy_text(peer, rofi_exit_code) {
                Some(text) => Some(Some(text)),
                None => None,
            },
        },
    }
}

/// Picking the line that the picker shows for a device, as rofi hands it
/// back, copies that device's value: its DNS name, or on Alt+Return its IPv4
/// address (failing where it has none). This holds where the devices' DNS
/// names are distinct, no host name or DNS name holds a tab, and no host
/// name is blank.
pub proof fn lemma_picking_a_device_line(
    status: Status,
    k: int,
    tail: Seq<char>,
    rofi_exit_code: Option<i32>,
)
    requires
        0 <= k < status.devices().len(),
        forall|i: int, j: int|
            0 <= i < j < status.devices().len() ==> (#[trigger] status.devices()[i]).dns_name@
                != (#[trigger] status.devices()[j]).dns_name@,
        forall|i: int|
            0 <= i < status.devices().len() ==> tab_free((#[trigger] status.devices()[i]).host_name@)
                && has_non_white_space(status.devices()[i].host_name@) && tab_free(
                status.devices()[i].dns_name@,
            ),
        all_white_space(tail),
    ensures
        status.listing().contains(entry_view(status.entries()[k])),
        pick_copy(status, peer_line(entry_view(status.entries()[k])) + tail, rofi_exit_code)
            == match copy_text(status.devices()[k], rofi_exit_code) {
            Some(text) => Some(Some(text)),
            None => None,
        },
{
    broadcast use vstd::seq_lib::group_to_multiset_ensures;

    status.lemma_entry_is_device(k);
    let e = status.entries()[k];
    let v = entry_view(e);
    lemma_listing_order_total();
    let views = entry_views(status.entries());
    views.lemma_sort_by_ensures(listing_order());
    assert(views[k] == v);
    assert(views.to_multiset().count(v) > 0);
    assert(status.listing().to_multiset().count(v) > 0);
    lemma_picked_line_names_its_device(v, tail);
    let name = status.devices()[k].dns_name@;
    assert forall|j: int| 0 <= j < status.devices().len() && j != k implies (
    #[trigger] status.devices()[j]).dns_name@ != name by {
        if j < k {
            assert(status.devices()[j].dns_name@ != status.devices()[k].dns_name@);
        } else {
            assert(status.devices()[k].dns_name@ != status.devices()[j].dns_name@);
        }
    }
    status.lemma_unique_dns_name_resolves(k, name);
}

/// Decides what a pick copies: nothing for an empty pick; the DNS name or,
/// on Alt+Return, the IPv4 address of the device whose DNS name the picked
/// line names; or the error that reports why that cannot be done.
pub fn resolve_pick<'a>(status: &'a Status, choice: &str, rofi_exit_code: Option<i32>) -> (r: Result<
    Option<&'a str>,
    PickError,
>)
    ensures
        match pick_copy(*status, choice@, rofi_exit_code) {
            None => r is Err,
            Some(None) => r matches Ok(None),
            Some(Some(text)) => r matches Ok(Some(value)) && value@ == text,
        },
        match picked_name(choice@) {
            None => r matches Ok(None),
            Some(name) => match first_with_dns_name(status.devices(), name) {
                None => r matches Err(PickError::NoSuchPeer { name: n }) && n@ == name,
                Some(peer) => match copy_text(peer, rofi_exit_code) {
                    Some(text) => r matches Ok(Some(value)) && value@ == text,
                    None => r matches Err(PickError::NoIpv4Address { host_name }) && host_name@
                        == peer.host_name@,
                },
            },
        },
{
    let name = match picked_dns_name(choice) {
        None => return Ok(None),
        Some(name) => name,
    };
    let peer = match status.find_peer_by_dns_name(name) {
        None => return Err(PickError::NoSuchPeer { name: name.to_string() }),
        Some(peer) => peer,
    };
    match value_to_copy(peer, rofi_exit_code) {
        Ok(value) => Ok(Some(value)),
        Err(e) => Err(e),
    }
}

} // verus!
