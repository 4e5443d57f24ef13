//! The hub's guarantees, stated and proved over the registry model.
//!
//! Each proof function here is part of the library's public statement: what
//! holds of every registry that the hub's handlers can produce.

use vstd::prelude::*;
use crate::server::connect_step;
use crate::server::contains_name;
use crate::server::deliver;
use crate::server::disconnect_step;
use crate::server::event_step;
use crate::server::find_peer;
use crate::server::lemma_deliver_names;
use crate::server::lemma_deliver_registry_wf;
use crate::server::lemma_remove_name_not_contains;
use crate::server::lemma_remove_name_registry_wf;
use crate::server::message_step;
use crate::server::names_unique;
use crate::server::peer_full;
use crate::server::peer_wf;
use crate::server::peers_wf;
use crate::server::push_line;
use crate::server::registry_wf;
use crate::server::remove_name;
use crate::server::run_events;
use crate::server::EventModel;
use crate::server::PeerModel;

verus! {

/// A connect event is well formed when the peer it would register has a
/// mailbox within its bound; the hub only ever sees such events.
pub open spec fn events_wf(evs: Seq<EventModel>) -> bool {
    forall|i: int|
        0 <= i < evs.len() ==> (#[trigger] evs[i] matches EventModel::Connect(p) ==> peer_wf(p))
}

/// `find_peer` finds a peer exactly when one of that name is registered, and
/// what it finds bears that name.
pub proof fn lemma_find_peer_some_iff(s: Seq<PeerModel>, name: Seq<char>)
    ensures
        find_peer(s, name) is Some <==> contains_name(s, name),
        find_peer(s, name) is Some ==> find_peer(s, name).unwrap().name == name,
    decreases s.len(),
{
    if s.len() > 0 {
        lemma_find_peer_some_iff(s.drop_last(), name);
        if s.last().name == name {
            assert(s[s.len() - 1].name == name);
        } else {
            if contains_name(s, name) {
                let i = choose|i: int| 0 <= i < s.len() && s[i].name == name;
                assert(s.drop_last()[i] == s[i]);
            }
            if contains_name(s.drop_last(), name) {
                let i = choose|i: int|
                    0 <= i < s.drop_last().len() && s.drop_last()[i].name == name;
                assert(s[i].name == name);
            }
        }
    }
}

/// No two simultaneously registered entries share a username, whatever one
/// event does: membership changes keep the registry well formed.
pub proof fn lemma_event_step_preserves_registry_wf(s: Seq<PeerModel>, e: EventModel)
    requires
        registry_wf(s),
        e matches EventModel::Connect(p) ==> peer_wf(p),
    ensures
        registry_wf(event_step(s, e)),
        names_unique(event_step(s, e)),
{
    match e {
        EventModel::Message(line) => {
            lemma_deliver_registry_wf(s, line);
        },
        EventModel::Connect(p) => {
            if !contains_name(s, p.name) {
                assert(names_unique(s.push(p))) by {
                    assert(forall|j: int|
                        0 <= j < s.len() ==> #[trigger] s[j].name != p.name);
                }
                assert(peers_wf(s.push(p))) by {
                    assert(forall|j: int| 0 <= j < s.len() ==> s.push(p)[j] == s[j]);
                }
                lemma_deliver_registry_wf(s.push(p), crate::client::online_line(p.name));
            }
        },
        EventModel::Disconnect(name) => {
            if contains_name(s, name) {
                lemma_remove_name_registry_wf(s, name);
                lemma_deliver_registry_wf(
                    remove_name(s, name),
                    crate::client::offline_line(name),
                );
            }
        },
    }
}

/// For every sequence of events processed from a well-formed registry, no
/// two simultaneously registered entries ever share a username.
pub proof fn lemma_run_events_preserves_registry_wf(s: Seq<PeerModel>, evs: Seq<EventModel>)
    requires
        registry_wf(s),
        events_wf(evs),
    ensures
        registry_wf(run_events(s, evs)),
        names_unique(run_events(s, evs)),
    decreases evs.len(),
{
    if evs.len() > 0 {
        lemma_event_step_preserves_registry_wf(s, evs[0]);
        assert(events_wf(evs.drop_first())) by {
            assert(forall|i: int|
                0 <= i < evs.drop_first().len() ==> evs.drop_first()[i] == evs[i + 1]);
        }
        lemma_run_events_preserves_registry_wf(event_step(s, evs[0]), evs.drop_first());
    }
}

/// Every peer registered both immediately before and immediately after a
/// message event receives exactly one copy of the line, appended at the back
/// of its mailbox, so mailbox contents keep the hub's processing order.
pub proof fn lemma_message_delivers_exactly_once(
    s: Seq<PeerModel>,
    line: Seq<char>,
    name: Seq<char>,
)
    requires
        names_unique(s),
        contains_name(s, name),
        contains_name(message_step(s, line), name),
    ensures
        find_peer(s, name) is Some,
        find_peer(message_step(s, line), name) is Some,
        find_peer(message_step(s, line), name).unwrap().inbox == find_peer(
            s,
            name,
        ).unwrap().inbox.push(line),
    decreases s.len(),
{
    lemma_find_peer_some_iff(s, name);
    lemma_find_peer_some_iff(message_step(s, line), name);
    let d = deliver(s, line);
    let prefix = s.drop_last();
    let rest = deliver(prefix, line);
    if s.last().name == name {
        assert(!contains_name(prefix, name)) by {
            assert(forall|j: int|
                0 <= j < s.len() - 1 ==> #[trigger] s[j].name != s[s.len() - 1].name);
        }
        lemma_deliver_names(prefix, line, name);
        if peer_full(s.last()) {
            assert(d == rest);
            assert(false);
        } else {
            assert(d.last() == push_line(s.last(), line));
            assert(find_peer(d, name) == Some(push_line(s.last(), line)));
            assert(find_peer(s, name) == Some(s.last()));
        }
    } else {
        assert(names_unique(prefix)) by {
            assert(forall|i: int, j: int|
                0 <= i < j < prefix.len() ==> prefix[i] == s[i] && prefix[j] == s[j]);
        }
        assert(contains_name(prefix, name)) by {
            let i = choose|i: int| 0 <= i < s.len() && s[i].name == name;
            assert(prefix[i] == s[i]);
        }
        assert(find_peer(s, name) == find_peer(prefix, name));
        if peer_full(s.last()) {
            assert(d == rest);
            lemma_message_delivers_exactly_once(prefix, line, name);
        } else {
            assert(d.last() == push_line(s.last(), line));
            assert(d.last().name != name);
            assert(d.drop_last() =~= rest);
            assert(find_peer(d, name) == find_peer(rest, name));
            assert(contains_name(rest, name)) by {
                let k = choose|k: int| 0 <= k < d.len() && d[k].name == name;
                assert(k < d.len() - 1);
                assert(rest[k] == d[k]);
            }
            lemma_message_delivers_exactly_once(prefix, line, name);
        }
    }
}

/// An accepted connect really registers the name: a peer whose fresh mailbox
/// has room survives its own join broadcast, so its entry exists from this
/// event until the matching disconnect.
pub proof fn lemma_connect_registers(s: Seq<PeerModel>, p: PeerModel)
    requires
        p.inbox.len() < p.cap,
        !contains_name(s, p.name),
    ensures
        contains_name(connect_step(s, p), p.name),
{
    let line = crate::client::online_line(p.name);
    let d = connect_step(s, p);
    assert(s.push(p).drop_last() =~= s);
    assert(s.push(p).last() == p);
    assert(!peer_full(p));
    assert(d == deliver(s, line).push(push_line(p, line)));
    assert(d[d.len() - 1].name == p.name);
}

/// Disconnecting a username that is not registered is a no-op.
pub proof fn lemma_disconnect_unregistered_noop(s: Seq<PeerModel>, name: Seq<char>)
    requires
        !contains_name(s, name),
    ensures
        disconnect_step(s, name) == s,
{
}

/// Processing the same disconnect twice has the same effect as processing it
/// once: after the first, the name is gone and the second does nothing.
pub proof fn lemma_disconnect_idempotent(s: Seq<PeerModel>, name: Seq<char>)
    ensures
        !contains_name(disconnect_step(s, name), name),
        disconnect_step(disconnect_step(s, name), name) == disconnect_step(s, name),
{
    if contains_name(s, name) {
        lemma_remove_name_not_contains(s, name);
        lemma_deliver_names(remove_name(s, name), crate::client::offline_line(name), name);
    }
}

/// A username freed by a disconnect can be reused at once: a connect under
/// that name finds no conflict and registers the peer.
pub proof fn lemma_freed_name_reusable(s: Seq<PeerModel>, p: PeerModel)
    ensures
        !contains_name(disconnect_step(s, p.name), p.name),
        event_step(disconnect_step(s, p.name), EventModel::Connect(p)) == connect_step(
            disconnect_step(s, p.name),
            p,
        ),
{
    lemma_disconnect_idempotent(s, p.name);
}

} // verus!

