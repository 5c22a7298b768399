//! The order of the picker list: by host name; among devices of one host
//! name the peers first and this device last; then by DNS name, by online
//! state (offline first) and by address list. The order looks at the
//! contents of an entry only, so the list does not depend on the order in
//! which the peers are walked.

use vstd::prelude::*;
use vstd::relations::{sorted_by, total_ordering};

use crate::tailscale::Peer;
use crate::text::{
    lemma_lex_antisymmetric, lemma_lex_reflexive, lemma_lex_total, lemma_lex_transitive, lex_le,
};

verus! {

/// What the picker list sees of an entry: host name, whether it is this
/// device, DNS name, online state and addresses.
pub type EntryView = (Seq<char>, bool, Seq<char>, bool, Seq<Seq<char>>);

/// The view of a `(peer, is_self)` entry.
pub open spec fn entry_view(e: (Peer, bool)) -> EntryView {
    (e.0.host_name@, e.1, e.0.dns_name@, e.0.online, e.0.ip_texts())
}

/// The views of a sequence of entries.
pub open spec fn entry_views(s: Seq<(Peer, bool)>) -> Seq<EntryView> {
    s.map_values(|e: (Peer, bool)| entry_view(e))
}

/// Lexicographic order on sequences of character sequences.
pub open spec fn seqs_le(a: Seq<Seq<char>>, b: Seq<Seq<char>>) -> bool
    decreases a.len(),
{
    if a.len() == 0 {
        true
    } else if b.len() == 0 {
        false
    } else if a[0] != b[0] {
        lex_le(a[0], b[0])
    } else {
        seqs_le(a.drop_first(), b.drop_first())
    }
}

proof fn lemma_seqs_reflexive(a: Seq<Seq<char>>)
    ensures
        seqs_le(a, a),
    decreases a.len(),
{
    if a.len() > 0 {
        lemma_seqs_reflexive(a.drop_first());
    }
}

proof fn lemma_seqs_total(a: Seq<Seq<char>>, b: Seq<Seq<char>>)
    ensures
        seqs_le(a, b) || seqs_le(b, a),
    decreases a.len(),
{
    if a.len() > 0 && b.len() > 0 {
        if a[0] == b[0] {
            lemma_seqs_total(a.drop_first(), b.drop_first());
        } else {
            lemma_lex_total(a[0], b[0]);
        }
    }
}

proof fn lemma_seqs_antisymmetric(a: Seq<Seq<char>>, b: Seq<Seq<char>>)
    requires
        seqs_le(a, b),
        seqs_le(b, a),
    ensures
        a == b,
    decreases a.len(),
{
    if a.len() > 0 && b.len() > 0 {
        if a[0] == b[0] {
            lemma_seqs_antisymmetric(a.drop_first(), b.drop_first());
            assert(a =~= seq![a[0]] + a.drop_first());
            assert(b =~= seq![b[0]] + b.drop_first());
        } else {
            lemma_lex_antisymmetric(a[0], b[0]);
        }
    }
    assert(a =~= b);
}

proof fn lemma_seqs_transitive(a: Seq<Seq<char>>, b: Seq<Seq<char>>, c: Seq<Seq<char>>)
    requires
        seqs_le(a, b),
        seqs_le(b, c),
    ensures
        seqs_le(a, c),
    decreases a.len(),
{
    if a.len() > 0 && b.len() > 0 && c.len() > 0 {
        if a[0] == b[0] && b[0] == c[0] {
            lemma_seqs_transitive(a.drop_first(), b.drop_first(), c.drop_first());
        } else if a[0] == b[0] {
        } else if b[0] == c[0] {
        } else {
            lemma_lex_transitive(a[0], b[0], c[0]);
            if a[0] == c[0] {
                lemma_lex_antisymmetric(a[0], b[0]);
            }
        }
    }
}

/// Whether entry `a` may come before entry `b` in the picker list.
pub open spec fn listed_before(a: EntryView, b: EntryView) -> bool {
    if a.0 != b.0 {
        lex_le(a.0, b.0)
    } else if a.1 != b.1 {
        !a.1
    } else if a.2 != b.2 {
        lex_le(a.2, b.2)
    } else if a.3 != b.3 {
        !a.3
    } else {
        seqs_le(a.4, b.4)
    }
}

/// The order of the picker list.
pub open spec fn listing_order() -> spec_fn(EntryView, EntryView) -> bool {
    |a: EntryView, b: EntryView| listed_before(a, b)
}

proof fn lemma_listed_before_reflexive(a: EntryView)
    ensures
        listed_before(a, a),
{
    lemma_seqs_reflexive(a.4);
}

proof fn lemma_listed_before_total(a: EntryView, b: EntryView)
    ensures
        listed_before(a, b) || listed_before(b, a),
{
    lemma_lex_total(a.0, b.0);
    lemma_lex_total(a.2, b.2);
    lemma_seqs_total(a.4, b.4);
}

proof fn lemma_listed_before_antisymmetric(a: EntryView, b: EntryView)
    requires
        listed_before(a, b),
        listed_before(b, a),
    ensures
        a == b,
{
    if a.0 != b.0 {
        lemma_lex_antisymmetric(a.0, b.0);
    } else if a.1 != b.1 {
    } else if a.2 != b.2 {
        lemma_lex_antisymmetric(a.2, b.2);
    } else if a.3 != b.3 {
    } else {
        lemma_seqs_antisymmetric(a.4, b.4);
    }
}

proof fn lemma_listed_before_transitive(a: EntryView, b: EntryView, c: EntryView)
    requires
        listed_before(a, b),
        listed_before(b, c),
    ensures
        listed_before(a, c),
{
    if a.0 != b.0 || b.0 != c.0 {
        if a.0 != b.0 && b.0 != c.0 {
            lemma_lex_transitive(a.0, b.0, c.0);
            if a.0 == c.0 {
                lemma_lex_antisymmetric(a.0, b.0);
            }
        }
    } else if a.1 != b.1 || b.1 != c.1 {
    } else if a.2 != b.2 || b.2 != c.2 {
        if a.2 != b.2 && b.2 != c.2 {
            lemma_lex_transitive(a.2, b.2, c.2);
            if a.2 == c.2 {
                lemma_lex_antisymmetric(a.2, b.2);
            }
        }
    } else if a.3 != b.3 || b.3 != c.3 {
    } else {
        lemma_seqs_transitive(a.4, b.4, c.4);
    }
}

/// The order of the picker list is a total order.
pub proof fn lemma_listing_order_total()
    ensures
        total_ordering(listing_order()),
{
    let r = listing_order();
    assert forall|x: EntryView| #[trigger] r(x, x) by {
        lemma_listed_before_reflexive(x);
    }
    assert forall|x: EntryView, y: EntryView| #[trigger] r(x, y) && #[trigger] r(y, x) implies x
        == y by {
        lemma_listed_before_antisymmetric(x, y);
    }
    assert forall|x: EntryView, y: EntryView, z: EntryView| #[trigger] r(x, y) && #[trigger] r(
        y,
        z,
    ) implies r(x, z) by {
        lemma_listed_before_transitive(x, y, z);
    }
    assert forall|x: EntryView, y: EntryView| #[trigger] r(x, y) || #[trigger] r(y, x) by {
        lemma_listed_before_total(x, y);
    }
}

/// In a sorted sequence, every element from the first one that is not
/// below `x` on is not below `x`.
pub proof fn lemma_not_below_from_first<A>(
    p: Seq<A>,
    x: A,
    pos: int,
    leq: spec_fn(A, A) -> bool,
)
    requires
        total_ordering(leq),
        sorted_by(p, leq),
        0 <= pos < p.len(),
        !leq(p[pos], x),
    ensures
        forall|m: int| pos <= m < p.len() ==> !leq(#[trigger] p[m], x),
{
    assert forall|m: int| pos <= m < p.len() implies !leq(#[trigger] p[m], x) by {
        if m > pos && leq(p[m], x) {
            assert(leq(p[pos], p[m]));
        }
    }
}

/// Inserting `x` into sorted `p` after the elements below it and before
/// the others keeps `p` sorted.
pub proof fn lemma_insert_sorted<A>(p: Seq<A>, x: A, pos: int, leq: spec_fn(A, A) -> bool)
    requires
        total_ordering(leq),
        sorted_by(p, leq),
        0 <= pos <= p.len(),
        forall|m: int| 0 <= m < pos ==> leq(#[trigger] p[m], x),
        forall|m: int| pos <= m < p.len() ==> !leq(#[trigger] p[m], x),
    ensures
        sorted_by(p.insert(pos, x), leq),
{
    let q = p.insert(pos, x);
    assert forall|i: int, j: int| 0 <= i < j < q.len() implies #[trigger] leq(q[i], q[j]) by {
        if j == pos {
            assert(q[i] == p[i]);
        } else if i == pos {
            assert(q[j] == p[j - 1]);
            assert(leq(x, p[j - 1]) || leq(p[j - 1], x));
        } else if j < pos {
            assert(q[i] == p[i] && q[j] == p[j]);
        } else if i < pos {
            assert(q[i] == p[i] && q[j] == p[j - 1]);
        } else {
            assert(q[i] == p[i - 1] && q[j] == p[j - 1]);
        }
    }
}

} // verus!
