//! The tailnet as `tailscale status --json` describes it: this device, its
//! peers, and the lists and lookups that the status bar and the peer picker
//! make of them.

use vstd::prelude::*;

use crate::ipv4::{is_ipv4_address, is_ipv4_text};
use crate::listing::{
    entry_view, entry_views, lemma_insert_sorted, lemma_listing_order_total,
    lemma_not_below_from_first, listed_before, listing_order, seqs_le, EntryView,
};
use crate::text::{
    chars_le, chars_of, lemma_split_lines_join, lemma_split_lines_single, lex_le, newline_free,
    split_lines, str_eq,
};
use vstd::relations::sorted_by;

verus! {

/// One device of the tailnet.
pub struct Peer {
    /// The self-reported host name; nothing keeps it unique.
    pub host_name: String,
    /// The MagicDNS name, unique over the tailnet.
    pub dns_name: String,
    pub online: bool,
    /// IPv4 first, then IPv6 (matches Tailscale's own ordering), e.g.
    /// `["100.73.195.116", "fd7a:115c:a1e0::7b35:c376"]`.
    pub tailscale_ips: Vec<String>,
}

/// The first of `ips` that is an IPv4 address, if any.
pub open spec fn first_ipv4(ips: Seq<Seq<char>>) -> Option<Seq<char>>
    decreases ips.len(),
{
    if ips.len() == 0 {
        None
    } else if is_ipv4_text(ips[0]) {
        Some(ips[0])
    } else {
        first_ipv4(ips.drop_first())
    }
}

/// The first IPv4 address of a list is there exactly when some entry is an
/// IPv4 address, and it is the earliest such entry.
pub proof fn lemma_first_ipv4_is_earliest(ips: Seq<Seq<char>>)
    ensures
        first_ipv4(ips) is Some <==> exists|i: int| 0 <= i < ips.len() && is_ipv4_text(#[trigger] ips[i]),
        first_ipv4(ips) matches Some(ip) ==> exists|k: int|
            0 <= k < ips.len() && ips[k] == ip && is_ipv4_text(ip) && forall|j: int|
                0 <= j < k ==> !is_ipv4_text(#[trigger] ips[j]),
    decreases ips.len(),
{
    if ips.len() > 0 {
        let rest = ips.drop_first();
        lemma_first_ipv4_is_earliest(rest);
        if !is_ipv4_text(ips[0]) {
            if exists|i: int| 0 <= i < ips.len() && is_ipv4_text(#[trigger] ips[i]) {
                let i = choose|i: int| 0 <= i < ips.len() && is_ipv4_text(#[trigger] ips[i]);
                assert(rest[i - 1] == ips[i]);
            }
            if first_ipv4(rest) is Some {
                let k = choose|k: int|
                    0 <= k < rest.len() && rest[k] == first_ipv4(rest)->0 && is_ipv4_text(
                        first_ipv4(rest)->0,
                    ) && forall|j: int| 0 <= j < k ==> !is_ipv4_text(#[trigger] rest[j]);
                assert(ips[k + 1] == rest[k]);
                assert forall|j: int| 0 <= j < k + 1 implies !is_ipv4_text(#[trigger] ips[j]) by {
                    if j > 0 {
                        assert(ips[j] == rest[j - 1]);
                    }
                }
            }
        }
    }
}

impl Peer {
    /// The peer's addresses as character sequences.
    pub open spec fn ip_texts(self) -> Seq<Seq<char>> {
        self.tailscale_ips@.map_values(|ip: String| ip@)
    }

    /// The peer's Tailscale IPv4 address, if it has one. Looked up by
    /// actually parsing each entry as IPv4 rather than assuming index 0,
    /// in case ordering ever changes.
    pub fn ipv4(&self) -> (r: Option<&str>)
        ensures
            match r {
                Some(ip) => first_ipv4(self.ip_texts()) == Some(ip@),
                None => first_ipv4(self.ip_texts()) is None,
            },
    {
        let ghost ips = self.ip_texts();
        let mut i: usize = 0;
        assert(ips.skip(0) =~= ips);
        while i < self.tailscale_ips.len()
            invariant
                i <= self.tailscale_ips.len(),
                ips == self.ip_texts(),
                first_ipv4(ips) == first_ipv4(ips.skip(i as int)),
            decreases self.tailscale_ips.len() - i,
        {
            assert(ips.skip(i as int)[0] == self.tailscale_ips@[i as int]@);
            if is_ipv4_address(self.tailscale_ips[i].as_str()) {
                return Some(self.tailscale_ips[i].as_str());
            }
            assert(ips.skip(i as int).drop_first() =~= ips.skip(i + 1));
            i += 1;
        }
        None
    }
}

/// The peers of a tailnet, keyed by node key, each key at most once.
pub struct PeerMap {
    entries: Vec<(String, Peer)>,
}

impl PeerMap {
    #[verifier::type_invariant]
    spec fn wf(self) -> bool {
        forall|i: int, j: int|
            0 <= i < j < self.entries@.len() ==> (#[trigger] self.entries@[i]).0@ != (
            #[trigger] self.entries@[j]).0@
    }

    /// The entries, in the order in which the map is walked.
    pub closed spec fn entries(self) -> Seq<(Seq<char>, Peer)> {
        self.entries@.map_values(|e: (String, Peer)| (e.0@, e.1))
    }

    /// No key occurs twice among the entries.
    pub open spec fn keys_unique(self) -> bool {
        forall|i: int, j: int|
            0 <= i < j < self.entries().len() ==> (#[trigger] self.entries()[i]).0 != (
            #[trigger] self.entries()[j]).0
    }

    /// The peers, in the order in which the map is walked.
    pub open spec fn values(self) -> Seq<Peer> {
        self.entries().map_values(|e: (Seq<char>, Peer)| e.1)
    }

    /// An empty map.
    pub fn new() -> (m: PeerMap)
        ensures
            m.entries() == Seq::<(Seq<char>, Peer)>::empty(),
            m.keys_unique(),
    {
        let m = PeerMap { entries: Vec::new() };
        assert(m.entries() =~= Seq::<(Seq<char>, Peer)>::empty());
        m
    }

    /// The number of peers.
    pub fn len(&self) -> (n: usize)
        ensures
            n == self.entries().len(),
    {
        self.entries.len()
    }

    /// The entries, in the order in which the map is walked.
    pub fn into_entries(self) -> (v: Vec<(String, Peer)>)
        ensures
            v@.map_values(|e: (String, Peer)| (e.0@, e.1)) == self.entries(),
    {
        self.entries
    }

    /// Puts `peer` under `key`: where the key is present, its peer is
    /// replaced in place and the old one returned; otherwise the entry is
    /// added at the end.
    pub fn insert(&mut self, key: String, peer: Peer) -> (old_peer: Option<Peer>)
        ensures
            final(self).keys_unique(),
            match old_peer {
                Some(p) => exists|i: int|
                    0 <= i < old(self).entries().len() && old(self).entries()[i] == (key@, p)
                        && final(self).entries() == old(self).entries().update(i, (key@, peer)),
                None => (forall|i: int|
                    0 <= i < old(self).entries().len() ==> (#[trigger] old(self).entries()[i]).0
                        != key@) && final(self).entries() == old(self).entries().push((key@, peer)),
            },
    {
        proof {
            use_type_invariant(&*self);
        }
        let ghost before = self.entries();
        let mut entries: Vec<(String, Peer)> = Vec::new();
        std::mem::swap(&mut entries, &mut self.entries);
        let mut i: usize = 0;
        while i < entries.len()
            invariant
                i <= entries.len(),
                before == entries@.map_values(|e: (String, Peer)| (e.0@, e.1)),
                before == old(self).entries(),
                forall|a: int, b: int|
                    0 <= a < b < entries@.len() ==> (#[trigger] entries@[a]).0@ != (
                    #[trigger] entries@[b]).0@,
                forall|j: int| 0 <= j < i ==> (#[trigger] entries@[j]).0@ != key@,
            decreases entries.len() - i,
        {
            if entries[i].0 == key {
                let ghost old_entries = entries@;
                let removed = entries.remove(i);
                entries.insert(i, (key, peer));
                assert(entries@ =~= old_entries.update(i as int, entries@[i as int]));
                self.entries = entries;
                proof {
                    assert(before[i as int] == (key@, removed.1));
                    assert(old(self).entries()[i as int] == (key@, removed.1));
                    assert(self.entries() =~= before.update(i as int, (key@, peer)));
                    use_type_invariant(&*self);
                }
                return Some(removed.1);
            }
            i += 1;
        }
        entries.push((key, peer));
        self.entries = entries;
        proof {
            assert(self.entries() =~= before.push((key@, peer)));
            use_type_invariant(&*self);
        }
        None
    }
}

/// What `tailscale status --json` reports.
pub struct Status {
    pub backend_state: String,
    /// This device.
    pub myself: Peer,
    pub peers: PeerMap,
}

/// The first of `peers` whose DNS name is `name`, if any.
pub open spec fn first_with_dns_name(peers: Seq<Peer>, name: Seq<char>) -> Option<Peer>
    decreases peers.len(),
{
    if peers.len() == 0 {
        None
    } else if peers[0].dns_name@ == name {
        Some(peers[0])
    } else {
        first_with_dns_name(peers.drop_first(), name)
    }
}

/// In a sequence where exactly one device has DNS name `name`, the first
/// device with that name is that device.
proof fn lemma_first_with_unique_dns_name(devices: Seq<Peer>, i: int, name: Seq<char>)
    requires
        0 <= i < devices.len(),
        devices[i].dns_name@ == name,
        forall|j: int| 0 <= j < devices.len() && j != i ==> (#[trigger] devices[j]).dns_name@ != name,
    ensures
        first_with_dns_name(devices, name) == Some(devices[i]),
    decreases devices.len(),
{
    if i > 0 {
        let rest = devices.drop_first();
        assert forall|j: int| 0 <= j < rest.len() && j != i - 1 implies (#[trigger] rest[j]).dns_name@
            != name by {
            assert(rest[j] == devices[j + 1]);
        }
        lemma_first_with_unique_dns_name(rest, i - 1, name);
    }
}

/// References to entries, read as entries.
pub open spec fn deref_entries(s: Seq<(&Peer, bool)>) -> Seq<(Peer, bool)> {
    s.map_values(|e: (&Peer, bool)| (*e.0, e.1))
}

impl Status {
    /// Every device of the tailnet: the peers, in the order in which the map
    /// is walked, then this device.
    pub open spec fn devices(self) -> Seq<Peer> {
        self.peers.values().push(self.myself)
    }

    /// The devices as `(peer, is_self)` entries, before any ordering.
    pub open spec fn entries(self) -> Seq<(Peer, bool)> {
        self.peers.values().map_values(|p: Peer| (p, false)).push((self.myself, true))
    }

    /// Where exactly one device of the tailnet has DNS name `name`, the lookup
    /// by DNS name resolves to that device, whatever the order in which the
    /// peers are walked and whatever host names the devices share.
    pub proof fn lemma_unique_dns_name_resolves(self, i: int, name: Seq<char>)
        requires
            0 <= i < self.devices().len(),
            self.devices()[i].dns_name@ == name,
            forall|j: int|
                0 <= j < self.devices().len() && j != i ==> (#[trigger] self.devices()[j]).dns_name@
                    != name,
        ensures
            first_with_dns_name(self.devices(), name) == Some(self.devices()[i]),
    {
        lemma_first_with_unique_dns_name(self.devices(), i, name);
    }

    /// Matches i3status-rust's `toggle` block command_state contract: exactly
    /// "on" or anything else means off.
    pub fn is_running(&self) -> (r: bool)
        ensures
            r == (self.backend_state@ == "Running"@),
    {
        str_eq(self.backend_state.as_str(), "Running")
    }

    /// Looks up a peer by DNS name, not hostname — `HostName` is a
    /// self-reported, unenforced field and can collide between peers (two
    /// devices can share a hostname). `DNSName` is the field Tailscale's
    /// MagicDNS actually guarantees unique (deduplicated with a `-1`/`-2`
    /// suffix), so it's the only safe key for resolving exactly the peer
    /// the user picked. Iterates directly rather than going through the
    /// sorted `peer_list()` — this is a lookup, not a display list.
    pub fn find_peer_by_dns_name(&self, dns_name: &str) -> (r: Option<&Peer>)
        ensures
            match r {
                Some(p) => first_with_dns_name(self.devices(), dns_name@) == Some(*p),
                None => first_with_dns_name(self.devices(), dns_name@) is None,
            },
    {
        let ghost devices = self.devices();
        let entries = &self.peers.entries;
        assert(devices.len() == entries.len() + 1);
        let mut i: usize = 0;
        assert(devices.skip(0) =~= devices);
        while i < entries.len()
            invariant
                i <= entries.len(),
                entries == &self.peers.entries,
                devices == self.devices(),
                devices.len() == entries.len() + 1,
                first_with_dns_name(devices, dns_name@) == first_with_dns_name(
                    devices.skip(i as int),
                    dns_name@,
                ),
            decreases entries.len() - i,
        {
            assert(self.peers.values()[i as int] == entries@[i as int].1);
            assert(devices.skip(i as int)[0] == entries@[i as int].1);
            if str_eq(entries[i].1.dns_name.as_str(), dns_name) {
                return Some(&entries[i].1);
            }
            assert(devices.skip(i as int).drop_first() =~= devices.skip(i + 1));
            i += 1;
        }
        assert(devices.skip(i as int)[0] == self.myself);
        if str_eq(self.myself.dns_name.as_str(), dns_name) {
            assert(first_with_dns_name(devices.skip(i as int), dns_name@) == Some(self.myself));
            Some(&self.myself)
        } else {
            assert(devices.skip(i as int).drop_first().len() == 0);
            assert(first_with_dns_name(devices.skip(i as int).drop_first(), dns_name@) is None);
            None
        }
    }

    /// The devices in the order of the picker list.
    pub open spec fn listing(self) -> Seq<EntryView> {
        entry_views(self.entries()).sort_by(listing_order())
    }

    /// Peers sorted by hostname for a stable, predictable picker list.
    /// Devices that share a host name are ordered by their contents, with
    /// this device after the peers (see `listing_order`).
    pub fn peer_list(&self) -> (r: Vec<(&Peer, bool)>)
        ensures
            entry_views(deref_entries(r@)) == self.listing(),
            deref_entries(r@).to_multiset() == self.entries().to_multiset(),
            peers_of(deref_entries(r@)).to_multiset() == self.devices().to_multiset(),
    {
        let ghost input = self.entries();
        let entries = &self.peers.entries;
        assert(input.len() == entries.len() + 1);
        let mut items: Vec<(&Peer, bool)> = Vec::new();
        let mut i: usize = 0;
        while i < entries.len()
            invariant
                i <= entries.len(),
                entries == &self.peers.entries,
                input == self.entries(),
                input.len() == entries.len() + 1,
                items.len() == i,
                deref_entries(items@) == input.take(i as int),
            decreases entries.len() - i,
        {
            assert(self.peers.values()[i as int] == entries@[i as int].1);
            assert(input[i as int] == (entries@[i as int].1, false));
            let ghost before = items@;
            items.push((&entries[i].1, false));
            assert(items@ == before.push((&entries@[i as int].1, false)));
            assert(deref_entries(items@)[i as int] == (entries@[i as int].1, false));
            assert(deref_entries(items@) =~= input.take(i + 1));
            i += 1;
        }
        let ghost before = items@;
        items.push((&self.myself, true));
        assert(items@ == before.push((&self.myself, true)));
        assert(deref_entries(items@)[i as int] == (self.myself, true));
        assert(input[i as int] == (self.myself, true));
        assert forall|k: int| 0 <= k < i implies deref_entries(items@)[k] == input[k] by {
            assert(deref_entries(items@)[k] == deref_entries(before)[k]);
            assert(input.take(i as int)[k] == input[k]);
        }
        assert(deref_entries(items@) =~= input);
        proof {
            lemma_listing_order_total();
        }
        let ghost order = listing_order();
        let mut out: Vec<(&Peer, bool)> = Vec::new();
        let mut n: usize = 0;
        proof {
            broadcast use vstd::seq_lib::group_to_multiset_ensures;

            assert(deref_entries(out@) =~= input.take(0));
            assert(entry_views(deref_entries(out@)) =~= entry_views(input.take(0)));
            assert(peers_of(deref_entries(out@)) =~= peers_of(input.take(0)));
        }
        while n < items.len()
            invariant
                n <= items.len(),
                deref_entries(items@) == input,
                out.len() == n,
                order == listing_order(),
                vstd::relations::total_ordering(order),
                sorted_by(entry_views(deref_entries(out@)), order),
                deref_entries(out@).to_multiset() == input.take(n as int).to_multiset(),
                entry_views(deref_entries(out@)).to_multiset() == entry_views(
                    input.take(n as int),
                ).to_multiset(),
                peers_of(deref_entries(out@)).to_multiset() == peers_of(
                    input.take(n as int),
                ).to_multiset(),
            decreases items.len() - n,
        {
            let x = items[n];
            let ghost p = deref_entries(out@);
            let ghost xe = (*x.0, x.1);
            assert(xe == input[n as int]);
            let mut pos: usize = 0;
            loop
                invariant
                    pos <= out.len(),
                    p == deref_entries(out@),
                    xe == (*x.0, x.1),
                    order == listing_order(),
                    forall|m: int|
                        0 <= m < pos ==> #[trigger] order(entry_views(p)[m], entry_view(xe)),
                ensures
                    pos <= out.len(),
                    forall|m: int|
                        0 <= m < pos ==> #[trigger] order(entry_views(p)[m], entry_view(xe)),
                    pos == out.len() || !order(entry_views(p)[pos as int], entry_view(xe)),
                decreases out.len() - pos,
            {
                if pos == out.len() {
                    break;
                }
                let ghost here = (*out@[pos as int].0, out@[pos as int].1);
                assert(deref_entries(out@)[pos as int] == here);
                assert(entry_views(p)[pos as int] == entry_view(here));
                assert(order(entry_views(p)[pos as int], entry_view(xe)) == listed_before(
                    entry_view(here),
                    entry_view(xe),
                ));
                if !listed_first(out[pos], x) {
                    break;
                }
                pos += 1;
            }
            proof {
                broadcast use vstd::seq_lib::group_to_multiset_ensures;
                broadcast use vstd::seq_lib::to_multiset_insert;

                let vp = entry_views(p);
                if pos < out.len() {
                    lemma_not_below_from_first(vp, entry_view(xe), pos as int, order);
                }
                lemma_insert_sorted(vp, entry_view(xe), pos as int, order);
                let q = p.insert(pos as int, xe);
                assert(entry_views(q) =~= vp.insert(pos as int, entry_view(xe)));
                assert(peers_of(q) =~= peers_of(p).insert(pos as int, xe.0));
                assert(input.take(n + 1) =~= input.take(n as int).push(xe));
                assert(entry_views(input.take(n + 1)) =~= entry_views(input.take(n as int)).push(
                    entry_view(xe),
                ));
                assert(peers_of(input.take(n + 1)) =~= peers_of(input.take(n as int)).push(xe.0));
            }
            out.insert(pos, x);
            assert(deref_entries(out@) =~= p.insert(pos as int, xe));
            n += 1;
        }
        proof {
            assert(input.take(n as int) =~= input);
            let views = entry_views(input);
            views.lemma_sort_by_ensures(order);
            vstd::seq_lib::lemma_sorted_unique(
                entry_views(deref_entries(out@)),
                views.sort_by(order),
                order,
            );
            assert(peers_of(input) =~= self.devices());
        }
        out
    }

    /// Entry `k` is device `k`, flagged when it is this device.
    pub proof fn lemma_entry_is_device(self, k: int)
        requires
            0 <= k < self.devices().len(),
        ensures
            self.entries().len() == self.devices().len(),
            self.entries()[k] == (self.devices()[k], k == self.devices().len() - 1),
    {
        if k < self.devices().len() - 1 {
            assert(self.entries()[k] == self.peers.values().map_values(|p: Peer| (p, false))[k]);
        }
    }

    /// Every entry of the picker list is the view of a device's entry.
    pub proof fn lemma_listing_members(self, i: int)
        requires
            0 <= i < self.listing().len(),
        ensures
            exists|k: int|
                0 <= k < self.devices().len() && self.listing()[i] == entry_view(
                    #[trigger] self.entries()[k],
                ),
    {
        broadcast use vstd::seq_lib::group_to_multiset_ensures;

        lemma_listing_order_total();
        let views = entry_views(self.entries());
        views.lemma_sort_by_ensures(listing_order());
        assert(self.listing().to_multiset().count(self.listing()[i]) > 0);
        assert(views.contains(self.listing()[i]));
        let k = choose|k: int| 0 <= k < views.len() && views[k] == self.listing()[i];
        self.lemma_entry_is_device(k);
        assert(views[k] == entry_view(self.entries()[k]));
    }

    /// Where no host name or DNS name holds a newline, the text of the
    /// picker has one line per device, the line of each entry of the picker
    /// list in turn.
    pub proof fn lemma_picker_text_lines(self)
        requires
            forall|k: int|
                0 <= k < self.devices().len() ==> newline_free(
                    (#[trigger] self.devices()[k]).host_name@,
                ) && newline_free(self.devices()[k].dns_name@),
        ensures
            split_lines(joined_lines(self.listing())) == self.listing().map_values(
                |v: EntryView| peer_line(v),
            ),
            split_lines(joined_lines(self.listing())).len() == self.peers.values().len() + 1,
    {
        self.lemma_listing_shape();
        assert forall|i: int| 0 <= i < self.listing().len() implies newline_free(
            (#[trigger] self.listing()[i]).0,
        ) && newline_free(self.listing()[i].2) by {
            self.lemma_listing_members(i);
            let k = choose|k: int|
                0 <= k < self.devices().len() && self.listing()[i] == entry_view(
                    #[trigger] self.entries()[k],
                );
            self.lemma_entry_is_device(k);
        }
        lemma_split_joined(self.listing());
    }

    /// The devices in the picker list do not depend on the order in which
    /// the peers are walked: two statuses with the same devices (the same
    /// host names, DNS names, online states and addresses, and the same
    /// device as this one) have the same list.
    pub proof fn lemma_listing_depends_on_contents(self, other: Status)
        requires
            entry_views(self.entries()).to_multiset() == entry_views(other.entries()).to_multiset(),
        ensures
            self.listing() == other.listing(),
    {
        lemma_listing_order_total();
        let order = listing_order();
        entry_views(self.entries()).lemma_sort_by_ensures(order);
        entry_views(other.entries()).lemma_sort_by_ensures(order);
        vstd::seq_lib::lemma_sorted_unique(self.listing(), other.listing(), order);
    }

    /// The picker list holds one entry per device, in order of host name,
    /// and this device comes after every peer that shares its host name.
    pub proof fn lemma_listing_shape(self)
        ensures
            self.listing().len() == self.peers.values().len() + 1,
            forall|i: int, j: int|
                0 <= i < j < self.listing().len() ==> lex_le(
                    (#[trigger] self.listing()[i]).0,
                    (#[trigger] self.listing()[j]).0,
                ),
            forall|i: int, j: int|
                0 <= i < j < self.listing().len() && (#[trigger] self.listing()[i]).0 == (
                #[trigger] self.listing()[j]).0 && self.listing()[i].1 ==> self.listing()[j].1,
    {
        broadcast use vstd::seq_lib::group_to_multiset_ensures;

        lemma_listing_order_total();
        let order = listing_order();
        let views = entry_views(self.entries());
        views.lemma_sort_by_ensures(order);
        assert(self.listing().to_multiset().len() == views.to_multiset().len());
        assert(self.listing().len() == views.len());
        assert forall|i: int, j: int| 0 <= i < j < self.listing().len() implies lex_le(
            (#[trigger] self.listing()[i]).0,
            (#[trigger] self.listing()[j]).0,
        ) by {
            assert(order(self.listing()[i], self.listing()[j]));
            if self.listing()[i].0 == self.listing()[j].0 {
                crate::text::lemma_lex_reflexive(self.listing()[i].0);
            }
        }
        assert forall|i: int, j: int|
            0 <= i < j < self.listing().len() && (#[trigger] self.listing()[i]).0 == (
            #[trigger] self.listing()[j]).0 && self.listing()[i].1 implies self.listing()[j].1 by {
            assert(order(self.listing()[i], self.listing()[j]));
        }
    }

    /// The picker list orders host names by code point: where two host names
    /// first differ at index `k`, the one with the smaller character at `k`
    /// comes first, and a host name comes after every proper prefix of it.
    pub proof fn lemma_listing_host_order(self, i: int, j: int, k: int)
        requires
            0 <= i < j < self.listing().len(),
        ensures
            k < self.listing()[i].0.len() && k < self.listing()[j].0.len() && self.listing()[i].0.take(
                k,
            ) == self.listing()[j].0.take(k) && self.listing()[i].0[k] != self.listing()[j].0[k]
                && 0 <= k ==> (self.listing()[i].0[k] as int) < (self.listing()[j].0[k] as int),
            self.listing()[j].0.len() < self.listing()[i].0.len() ==> self.listing()[i].0.take(
                self.listing()[j].0.len() as int,
            ) != self.listing()[j].0,
    {
        self.lemma_listing_shape();
        let a = self.listing()[i].0;
        let b = self.listing()[j].0;
        assert(lex_le(a, b));
        if 0 <= k < a.len() && k < b.len() && a.take(k) == b.take(k) && a[k] != b[k] {
            crate::text::lemma_lex_le_first_difference(a, b, k);
        }
        if b.len() < a.len() && a.take(b.len() as int) == b {
            crate::text::lemma_lex_le_prefix(b, a);
        }
    }

    /// In a list that holds the entries of the devices, only this device
    /// carries the flag, and it appears exactly once.
    pub proof fn lemma_only_this_device_flagged(self, l: Seq<(Peer, bool)>)
        requires
            l.to_multiset() == self.entries().to_multiset(),
        ensures
            forall|i: int| 0 <= i < l.len() && (#[trigger] l[i]).1 ==> l[i] == (self.myself, true),
            l.to_multiset().count((self.myself, true)) == 1,
    {
        broadcast use vstd::seq_lib::group_to_multiset_ensures;

        let peers = self.peers.values().map_values(|p: Peer| (p, false));
        assert(self.entries() == peers.push((self.myself, true)));
        assert(!peers.contains((self.myself, true)));
        assert forall|i: int| 0 <= i < l.len() && (#[trigger] l[i]).1 implies l[i] == (
            self.myself,
            true,
        ) by {
            assert(l.to_multiset().count(l[i]) > 0);
            assert(self.entries().contains(l[i]));
            let k = choose|k: int| 0 <= k < self.entries().len() && self.entries()[k] == l[i];
            if k < peers.len() {
                assert(self.entries()[k] == peers[k]);
            }
        }
        assert(peers.to_multiset().count((self.myself, true)) == 0);
    }
}

/// The peers of a sequence of entries.
pub open spec fn peers_of(s: Seq<(Peer, bool)>) -> Seq<Peer> {
    s.map_values(|e: (Peer, bool)| e.0)
}

/// Whether entry `a` may come before entry `b` in the picker list.
fn listed_first(a: (&Peer, bool), b: (&Peer, bool)) -> (r: bool)
    ensures
        r == listed_before(entry_view((*a.0, a.1)), entry_view((*b.0, b.1))),
{
    let (pa, fa) = a;
    let (pb, fb) = b;
    if !str_eq(pa.host_name.as_str(), pb.host_name.as_str()) {
        chars_le(&chars_of(pa.host_name.as_str()), &chars_of(pb.host_name.as_str()))
    } else if fa != fb {
        !fa
    } else if !str_eq(pa.dns_name.as_str(), pb.dns_name.as_str()) {
        chars_le(&chars_of(pa.dns_name.as_str()), &chars_of(pb.dns_name.as_str()))
    } else if pa.online != pb.online {
        !pa.online
    } else {
        addresses_le(&pa.tailscale_ips, &pb.tailscale_ips)
    }
}

/// Compares two address lists lexicographically.
fn addresses_le(a: &Vec<String>, b: &Vec<String>) -> (r: bool)
    ensures
        r == seqs_le(a@.map_values(|s: String| s@), b@.map_values(|s: String| s@)),
{
    let ghost va = a@.map_values(|s: String| s@);
    let ghost vb = b@.map_values(|s: String| s@);
    let mut i: usize = 0;
    assert(va.skip(0) =~= va);
    assert(vb.skip(0) =~= vb);
    while i < a.len() && i < b.len()
        invariant
            i <= a.len(),
            i <= b.len(),
            va == a@.map_values(|s: String| s@),
            vb == b@.map_values(|s: String| s@),
            seqs_le(va, vb) == seqs_le(va.skip(i as int), vb.skip(i as int)),
        decreases a.len() - i,
    {
        assert(va.skip(i as int)[0] == a@[i as int]@);
        assert(vb.skip(i as int)[0] == b@[i as int]@);
        if !str_eq(a[i].as_str(), b[i].as_str()) {
            return chars_le(&chars_of(a[i].as_str()), &chars_of(b[i].as_str()));
        }
        assert(va.skip(i as int).drop_first() =~= va.skip(i + 1));
        assert(vb.skip(i as int).drop_first() =~= vb.skip(i + 1));
        i += 1;
    }
    i == a.len()
}

/// The label of an entry in the picker: this device, or the peer's state.
pub open spec fn status_label(v: EntryView) -> Seq<char> {
    if v.1 {
        "(this device)"@
    } else if v.3 {
        "online"@
    } else {
        "offline"@
    }
}

/// The picker line of an entry: "hostname\tdns_name\tstatus_label".
pub open spec fn peer_line(v: EntryView) -> Seq<char> {
    v.0 + "\t"@ + v.2 + "\t"@ + status_label(v)
}

/// The lines of the entries, joined by newlines.
pub open spec fn joined_lines(s: Seq<EntryView>) -> Seq<char>
    decreases s.len(),
{
    if s.len() == 0 {
        Seq::empty()
    } else if s.len() == 1 {
        peer_line(s[0])
    } else {
        joined_lines(s.drop_last()) + "\n"@ + peer_line(s.last())
    }
}

/// A picker line is the host name, a tab, the DNS name, a tab and a label:
/// "(this device)" for this device, otherwise "online" or "offline" as the
/// online flag says. The addresses play no part in it.
pub proof fn lemma_peer_line_label(v: EntryView, other_ips: Seq<Seq<char>>)
    ensures
        v.1 ==> peer_line(v) == v.0 + "\t"@ + v.2 + "\t(this device)"@,
        !v.1 && v.3 ==> peer_line(v) == v.0 + "\t"@ + v.2 + "\tonline"@,
        !v.1 && !v.3 ==> peer_line(v) == v.0 + "\t"@ + v.2 + "\toffline"@,
        peer_line(v) == peer_line((v.0, v.1, v.2, v.3, other_ips)),
{
    reveal_strlit("\t");
    reveal_strlit("(this device)");
    reveal_strlit("online");
    reveal_strlit("offline");
    reveal_strlit("\t(this device)");
    reveal_strlit("\tonline");
    reveal_strlit("\toffline");
    assert("\t"@ + "(this device)"@ =~= "\t(this device)"@);
    assert("\t"@ + "online"@ =~= "\tonline"@);
    assert("\t"@ + "offline"@ =~= "\toffline"@);
    let front = v.0 + "\t"@ + v.2;
    assert(peer_line(v) =~= front + ("\t"@ + status_label(v)));
}

/// A picker line holds no newline where its names hold none.
proof fn lemma_peer_line_newline_free(v: EntryView)
    requires
        newline_free(v.0),
        newline_free(v.2),
    ensures
        newline_free(peer_line(v)),
{
    reveal_strlit("\t");
    reveal_strlit("(this device)");
    reveal_strlit("online");
    reveal_strlit("offline");
    let line = peer_line(v);
    assert forall|i: int| 0 <= i < line.len() implies #[trigger] line[i] != '\n' by {
        let a = v.0.len();
        let b = a + 1 + v.2.len();
        if i < a {
            assert(line[i] == v.0[i]);
        } else if i == a || i == b {
        } else if i < b {
            assert(line[i] == v.2[i - a - 1]);
        }
    }
}

/// The lines of joined picker lines are the picker lines.
proof fn lemma_split_joined(l: Seq<EntryView>)
    requires
        l.len() >= 1,
        forall|i: int| 0 <= i < l.len() ==> newline_free((#[trigger] l[i]).0) && newline_free(l[i].2),
    ensures
        split_lines(joined_lines(l)) == l.map_values(|v: EntryView| peer_line(v)),
    decreases l.len(),
{
    reveal_strlit("\n");
    lemma_peer_line_newline_free(l.last());
    lemma_split_lines_single(peer_line(l.last()));
    if l.len() == 1 {
        assert(l.map_values(|v: EntryView| peer_line(v)) =~= seq![peer_line(l[0])]);
    } else {
        let front = l.drop_last();
        assert forall|i: int| 0 <= i < front.len() implies newline_free((#[trigger] front[i]).0)
            && newline_free(front[i].2) by {
            assert(front[i] == l[i]);
        }
        lemma_split_joined(front);
        assert("\n"@ =~= seq!['\n']);
        assert(joined_lines(l) == joined_lines(front) + seq!['\n'] + peer_line(l.last()));
        lemma_split_lines_join(joined_lines(front), peer_line(l.last()));
        assert(l.map_values(|v: EntryView| peer_line(v)) =~= front.map_values(
            |v: EntryView| peer_line(v),
        ) + seq![peer_line(l.last())]);
    }
}

/// One line per host: "hostname\tdns_name\tstatus_label", for piping into rofi.
pub fn format_peer_lines(status: &Status) -> (out: String)
    ensures
        out@ == joined_lines(status.listing()),
{
    let list = status.peer_list();
    let ghost entries = entry_views(deref_entries(list@));
    let mut out = String::new();
    let mut i: usize = 0;
    while i < list.len()
        invariant
            i <= list.len(),
            entries == entry_views(deref_entries(list@)),
            out@ == joined_lines(entries.take(i as int)),
        decreases list.len() - i,
    {
        let (peer, is_self) = list[i];
        assert(entries[i as int] == entry_view((*peer, is_self)));
        assert(entries.take(i + 1).drop_last() =~= entries.take(i as int));
        if i > 0 {
            out.append("\n");
        }
        out.append(peer.host_name.as_str());
        out.append("\t");
        out.append(peer.dns_name.as_str());
        out.append("\t");
        let label = if is_self {
            "(this device)"
        } else if peer.online {
            "online"
        } else {
            "offline"
        };
        out.append(label);
        proof {
            if i == 0 {
                assert(entries.take(1) =~= seq![entries[0]]);
                assert(out@ =~= peer_line(entries[0]));
            } else {
                assert(out@ =~= joined_lines(entries.take(i as int)) + "\n"@ + peer_line(
                    entries[i as int],
                ));
            }
        }
        i += 1;
    }
    assert(entries.take(i as int) =~= entries);
    out
}

} // verus!
