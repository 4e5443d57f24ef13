//! The hub: single owner of the registry of connected peers and of message
//! fan-out.
//!
//! Every membership change and every broadcast goes through one
//! [`Server::handle_event`] call at a time; that serialization is what keeps a
//! broadcast from observing a half-updated membership set. The registry maps
//! each username to the peer's outbound [`Mailbox`]; a peer whose mailbox is
//! full at broadcast time has that line dropped and is removed from the
//! registry (forced disconnect) rather than stalling everyone else.
//!
//! Policy choices, fixed and relied on by the contracts here:
//! - join and leave notices are delivered to every peer registered after the
//!   membership change, the just-joined peer included;
//! - disconnecting a username that is not registered does nothing at all, so
//!   processing a disconnect twice equals processing it once;
//! - a force-disconnected peer is removed silently; its own session notices
//!   the closed mailbox and its later disconnect event finds nothing to do.

use vstd::prelude::*;
use vstd::string::StringExecFns;
use crate::client::offline_line;
use crate::client::online_line;
use crate::client::render_offline;
use crate::client::render_online;
use crate::client::valid_name;
use crate::client::validate_name;
use crate::client::NameError;
use crate::client::NAME_MAX;
use crate::client::NAME_MIN;
use crate::mailbox::Mailbox;
use vstd::utf8::is_ascii_chars;

verus! {

/// Mathematical stand-in for one registered peer: its name, the lines queued
/// in its mailbox, and the mailbox bound.
#[verifier::ext_equal]
pub ghost struct PeerModel {
    pub name: Seq<char>,
    pub inbox: Seq<Seq<char>>,
    pub cap: nat,
}

pub open spec fn peer_wf(p: PeerModel) -> bool {
    p.inbox.len() <= p.cap && 1 <= p.cap
}

pub open spec fn peer_full(p: PeerModel) -> bool {
    p.inbox.len() >= p.cap
}

pub open spec fn push_line(p: PeerModel, line: Seq<char>) -> PeerModel {
    PeerModel { inbox: p.inbox.push(line), ..p }
}

pub open spec fn peer_model(name: Seq<char>, inbox: Seq<Seq<char>>, cap: nat) -> PeerModel {
    PeerModel { name, inbox, cap }
}

/// No two registered peers share a name.
pub open spec fn names_unique(s: Seq<PeerModel>) -> bool {
    forall|i: int, j: int| 0 <= i < j < s.len() ==> s[i].name != s[j].name
}

pub open spec fn peers_wf(s: Seq<PeerModel>) -> bool {
    forall|i: int| 0 <= i < s.len() ==> peer_wf(#[trigger] s[i])
}

pub open spec fn registry_wf(s: Seq<PeerModel>) -> bool {
    names_unique(s) && peers_wf(s)
}

pub open spec fn contains_name(s: Seq<PeerModel>, name: Seq<char>) -> bool {
    exists|i: int| 0 <= i < s.len() && s[i].name == name
}

/// An index holding `name`; with unique names, the index. Meaningful only
/// when `contains_name(s, name)`.
pub open spec fn index_of_name(s: Seq<PeerModel>, name: Seq<char>) -> int {
    choose|i: int| 0 <= i < s.len() && s[i].name == name
}

/// The registered names, in registry order.
pub open spec fn names_of(s: Seq<PeerModel>) -> Seq<Seq<char>> {
    s.map_values(|p: PeerModel| p.name)
}

/// The registered peer of that name, if any; with unique names there is at
/// most one.
pub open spec fn find_peer(s: Seq<PeerModel>, name: Seq<char>) -> Option<PeerModel>
    decreases s.len(),
{
    if s.len() == 0 {
        None
    } else if s.last().name == name {
        Some(s.last())
    } else {
        find_peer(s.drop_last(), name)
    }
}

/// One broadcast: every registered peer is visited once, in registry order.
/// A peer with room gets `line` appended to its inbox; a peer whose inbox is
/// full is removed (forced disconnect), the line dropped for it alone.
pub open spec fn deliver(s: Seq<PeerModel>, line: Seq<char>) -> Seq<PeerModel>
    decreases s.len(),
{
    if s.len() == 0 {
        Seq::empty()
    } else {
        let rest = deliver(s.drop_last(), line);
        if peer_full(s.last()) {
            rest
        } else {
            rest.push(push_line(s.last(), line))
        }
    }
}

/// The names a broadcast over `s` would force-disconnect: those whose inbox
/// is already full, in registry order.
pub open spec fn dropped_names(s: Seq<PeerModel>) -> Seq<Seq<char>>
    decreases s.len(),
{
    if s.len() == 0 {
        Seq::empty()
    } else {
        let rest = dropped_names(s.drop_last());
        if peer_full(s.last()) {
            rest.push(s.last().name)
        } else {
            rest
        }
    }
}

/// The registry without any peer of that name.
pub open spec fn remove_name(s: Seq<PeerModel>, name: Seq<char>) -> Seq<PeerModel>
    decreases s.len(),
{
    if s.len() == 0 {
        Seq::empty()
    } else if s.last().name == name {
        remove_name(s.drop_last(), name)
    } else {
        remove_name(s.drop_last(), name).push(s.last())
    }
}

/// Processing a chat message: fan the line out to everyone registered.
pub open spec fn message_step(s: Seq<PeerModel>, line: Seq<char>) -> Seq<PeerModel> {
    deliver(s, line)
}

/// Processing an accepted connection: register the peer, then broadcast its
/// join notice to everyone registered, the new peer included.
pub open spec fn connect_step(s: Seq<PeerModel>, p: PeerModel) -> Seq<PeerModel> {
    deliver(s.push(p), online_line(p.name))
}

/// Processing a disconnection: if the name is registered, deregister it and
/// broadcast the leave notice; an unregistered name is a no-op.
pub open spec fn disconnect_step(s: Seq<PeerModel>, name: Seq<char>) -> Seq<PeerModel> {
    if contains_name(s, name) {
        deliver(remove_name(s, name), offline_line(name))
    } else {
        s
    }
}

/// Mathematical stand-in for one hub event.
pub ghost enum EventModel {
    Message(Seq<char>),
    Connect(PeerModel),
    Disconnect(Seq<char>),
}

/// What one event does to the registry. A connect whose name is already
/// registered is refused and changes nothing.
pub open spec fn event_step(s: Seq<PeerModel>, e: EventModel) -> Seq<PeerModel> {
    match e {
        EventModel::Message(line) => message_step(s, line),
        EventModel::Connect(p) => if contains_name(s, p.name) {
            s
        } else {
            connect_step(s, p)
        },
        EventModel::Disconnect(name) => disconnect_step(s, name),
    }
}

/// The registry after a whole sequence of events, processed one at a time in
/// order.
pub open spec fn run_events(s: Seq<PeerModel>, evs: Seq<EventModel>) -> Seq<PeerModel>
    decreases evs.len(),
{
    if evs.len() == 0 {
        s
    } else {
        run_events(event_step(s, evs[0]), evs.drop_first())
    }
}

/// A peer delivered to is a peer that was registered: a broadcast never
/// invents an entry.
pub proof fn lemma_deliver_names(s: Seq<PeerModel>, line: Seq<char>, name: Seq<char>)
    ensures
        contains_name(deliver(s, line), name) ==> contains_name(s, name),
    decreases s.len(),
{
    if s.len() > 0 {
        lemma_deliver_names(s.drop_last(), line, name);
        if contains_name(deliver(s, line), name) {
            let d = deliver(s, line);
            let rest = deliver(s.drop_last(), line);
            let k = choose|k: int| 0 <= k < d.len() && d[k].name == name;
            if !peer_full(s.last()) && k == rest.len() {
                assert(s[s.len() - 1].name == name);
            } else {
                assert(rest[k].name == name);
                assert(contains_name(s.drop_last(), name));
                let m = choose|m: int| 0 <= m < s.drop_last().len() && s.drop_last()[m].name
                    == name;
                assert(s[m].name == name);
            }
        }
    }
}

/// A broadcast keeps names unique.
pub proof fn lemma_deliver_unique(s: Seq<PeerModel>, line: Seq<char>)
    requires
        names_unique(s),
    ensures
        names_unique(deliver(s, line)),
    decreases s.len(),
{
    if s.len() > 0 {
        let prefix = s.drop_last();
        assert(names_unique(prefix)) by {
            assert(forall|i: int, j: int|
                0 <= i < j < prefix.len() ==> prefix[i] == s[i] && prefix[j] == s[j]);
        }
        lemma_deliver_unique(prefix, line);
        if !peer_full(s.last()) {
            let rest = deliver(prefix, line);
            let p = push_line(s.last(), line);
            assert(!contains_name(prefix, s.last().name)) by {
                assert(forall|j: int|
                    0 <= j < prefix.len() ==> #[trigger] prefix[j].name != s.last().name) by {
                    assert(forall|j: int|
                        0 <= j < s.len() - 1 ==> #[trigger] s[j].name != s[s.len() - 1].name);
                }
            }
            lemma_deliver_names(prefix, line, s.last().name);
            assert(!contains_name(rest, p.name));
            assert(names_unique(rest.push(p))) by {
                assert(forall|j: int| 0 <= j < rest.len() ==> #[trigger] rest[j].name != p.name);
            }
        }
    }
}

/// A broadcast keeps every surviving mailbox within its bound.
pub proof fn lemma_deliver_peers_wf(s: Seq<PeerModel>, line: Seq<char>)
    requires
        peers_wf(s),
    ensures
        peers_wf(deliver(s, line)),
    decreases s.len(),
{
    if s.len() > 0 {
        let prefix = s.drop_last();
        assert(peers_wf(prefix)) by {
            assert(forall|i: int| 0 <= i < prefix.len() ==> prefix[i] == s[i]);
        }
        lemma_deliver_peers_wf(prefix, line);
        if !peer_full(s.last()) {
            assert(peer_wf(s[s.len() - 1]));
            assert(peer_wf(push_line(s.last(), line)));
        }
    }
}

/// A broadcast keeps the registry well formed.
pub proof fn lemma_deliver_registry_wf(s: Seq<PeerModel>, line: Seq<char>)
    requires
        registry_wf(s),
    ensures
        registry_wf(deliver(s, line)),
{
    lemma_deliver_unique(s, line);
    lemma_deliver_peers_wf(s, line);
}

/// Deregistering a name really removes it.
pub proof fn lemma_remove_name_not_contains(s: Seq<PeerModel>, name: Seq<char>)
    ensures
        !contains_name(remove_name(s, name), name),
    decreases s.len(),
{
    if s.len() > 0 {
        lemma_remove_name_not_contains(s.drop_last(), name);
        if s.last().name != name {
            let rest = remove_name(s.drop_last(), name);
            assert(forall|j: int| 0 <= j < rest.len() ==> #[trigger] rest[j].name != name);
            assert(forall|j: int|
                0 <= j < rest.push(s.last()).len() ==> #[trigger] rest.push(s.last())[j].name
                    != name);
        }
    }
}

/// A peer surviving a deregistration was registered before it.
pub proof fn lemma_remove_name_names(s: Seq<PeerModel>, name: Seq<char>, other: Seq<char>)
    ensures
        contains_name(remove_name(s, name), other) ==> contains_name(s, other),
    decreases s.len(),
{
    if s.len() > 0 {
        lemma_remove_name_names(s.drop_last(), name, other);
        if contains_name(remove_name(s, name), other) {
            let r = remove_name(s, name);
            let k = choose|k: int| 0 <= k < r.len() && r[k].name == other;
            let rest = remove_name(s.drop_last(), name);
            if s.last().name != name && k == rest.len() {
                assert(s[s.len() - 1].name == other);
            } else {
                assert(rest[k].name == other);
                assert(contains_name(s.drop_last(), other));
                let m = choose|m: int| 0 <= m < s.drop_last().len() && s.drop_last()[m].name
                    == other;
                assert(s[m].name == other);
            }
        }
    }
}

/// Deregistration keeps the registry well formed.
pub proof fn lemma_remove_name_registry_wf(s: Seq<PeerModel>, name: Seq<char>)
    requires
        registry_wf(s),
    ensures
        registry_wf(remove_name(s, name)),
    decreases s.len(),
{
    if s.len() > 0 {
        let prefix = s.drop_last();
        assert(registry_wf(prefix)) by {
            assert(forall|i: int| 0 <= i < prefix.len() ==> prefix[i] == s[i]);
        }
        lemma_remove_name_registry_wf(prefix, name);
        if s.last().name != name {
            let rest = remove_name(prefix, name);
            assert(!contains_name(prefix, s.last().name)) by {
                assert(forall|j: int|
                    0 <= j < s.len() - 1 ==> #[trigger] s[j].name != s[s.len() - 1].name);
            }
            lemma_remove_name_names(prefix, name, s.last().name);
            assert(!contains_name(rest, s.last().name));
            assert(names_unique(rest.push(s.last()))) by {
                assert(forall|j: int|
                    0 <= j < rest.len() ==> #[trigger] rest[j].name != s.last().name);
            }
            assert(peer_wf(s[s.len() - 1]));
        }
    }
}

/// One connected peer as the hub holds it: its name and its outbound mailbox.
struct Peer {
    name: String,
    mailbox: Mailbox,
}

impl View for Peer {
    type V = PeerModel;

    closed spec fn view(&self) -> PeerModel {
        PeerModel { name: self.name@, inbox: self.mailbox@, cap: self.mailbox.capacity() }
    }
}

/// The live registry: who is connected, and each peer's mailbox.
pub struct State {
    clients: Vec<Peer>,
}

/// The models of a run of peers, in order.
spec fn models(s: Seq<Peer>) -> Seq<PeerModel> {
    s.map_values(|p: Peer| p@)
}

impl View for State {
    type V = Seq<PeerModel>;

    closed spec fn view(&self) -> Seq<PeerModel> {
        models(self.clients@)
    }
}

impl State {
    pub open spec fn wf(&self) -> bool {
        registry_wf(self@)
    }

    /// An empty registry.
    pub fn make() -> (s: State)
        ensures
            s@ =~= Seq::<PeerModel>::empty(),
            s.wf(),
    {
        let s = State { clients: Vec::new() };
        assert(s@ =~= Seq::<PeerModel>::empty());
        s
    }

    /// Whether `name` is registered right now.
    pub fn has_username(&mut self, name: &str) -> (r: bool)
        ensures
            *final(self) == *old(self),
            r == contains_name(old(self)@, name@),
    {
        let name_owned = name.to_owned();
        let n = self.clients.len();
        let mut i: usize = 0;
        while i < n
            invariant
                i <= n,
                n == self.clients.len(),
                *self == *old(self),
                name_owned@ == name@,
                forall|j: int| 0 <= j < i ==> self@[j].name != name@,
            decreases n - i,
        {
            assert(self@[i as int] == self.clients@[i as int]@);
            if self.clients[i].name.eq(&name_owned) {
                assert(self@[i as int].name == name@);
                return true;
            }
            i = i + 1;
        }
        false
    }

    /// The session's local pre-check of a candidate name: length, character
    /// set, and a conflict hint against the live registry. The hub re-checks
    /// the conflict when the connection is committed.
    pub fn is_name_valid(&mut self, name: &str) -> (r: Result<(), NameError>)
        ensures
            *final(self) == *old(self),
            r is Ok <==> valid_name(name@) && !contains_name(old(self)@, name@),
            name@.len() < NAME_MIN ==> r == Err::<(), NameError>(NameError::TooShort),
            name@.len() > NAME_MAX ==> r == Err::<(), NameError>(NameError::TooLong),
            NAME_MIN <= name@.len() <= NAME_MAX && !is_ascii_chars(name@) ==> r == Err::<(),
            NameError>(NameError::NotAscii),
            valid_name(name@) && contains_name(old(self)@, name@) ==> r == Err::<(),
            NameError>(NameError::InUse),
    {
        match validate_name(name) {
            Err(e) => Err(e),
            Ok(_) => {
                if self.has_username(name) {
                    Err(NameError::InUse)
                } else {
                    Ok(())
                }
            },
        }
    }
}

/// The hub: sole owner of the [`State`]. Every registry mutation and every
/// broadcast goes through one of its handlers, one event at a time.
pub struct Server {
    state: State,
}

impl View for Server {
    type V = Seq<PeerModel>;

    closed spec fn view(&self) -> Seq<PeerModel> {
        self.state@
    }
}

impl Server {
    pub open spec fn wf(&self) -> bool {
        registry_wf(self@)
    }

    pub fn make(state: State) -> (s: Server)
        ensures
            s@ == state@,
    {
        Server { state }
    }

    /// Enqueues `msg` to every registered mailbox, visiting each entry exactly
    /// once in registry order. A peer whose mailbox is full has the line
    /// dropped for it alone and is removed from the registry (forced
    /// disconnect); the returned names are those removed, for the caller to
    /// close their connections.
    pub fn broadcast_message(&mut self, msg: String) -> (dropped: Vec<String>)
        requires
            old(self).wf(),
        ensures
            final(self).wf(),
            final(self)@ == deliver(old(self)@, msg@),
            dropped.deep_view() == dropped_names(old(self)@),
    {
        let ghost orig: Seq<PeerModel> = old(self)@;
        let ghost n: int = orig.len() as int;
        let mut kept: Vec<Peer> = Vec::new();
        let mut dropped: Vec<String> = Vec::new();
        let ghost mut i: int = 0;
        while self.state.clients.len() > 0
            invariant
                0 <= i <= n,
                n == orig.len(),
                self.state.clients.len() == n - i,
                models(self.state.clients@) =~= orig.subrange(i, n),
                models(kept@) =~= deliver(orig.take(i), msg@),
                dropped.deep_view() =~= dropped_names(orig.take(i)),
            decreases n - i,
        {
            let ghost cl: Seq<Peer> = self.state.clients@;
            let mut p = self.state.clients.remove(0);
            assert(models(cl)[0] == cl[0]@);
            assert(p@ == orig[i]);
            let ghost kept_before = models(kept@);
            let ghost dropped_before = dropped.deep_view();
            let r = p.mailbox.enqueue(msg.clone());
            proof {
                assert(orig.take(i + 1).drop_last() =~= orig.take(i));
                assert(orig.take(i + 1).last() == orig[i]);
            }
            match r {
                Ok(_) => {
                    assert(p@ == push_line(orig[i], msg@));
                    kept.push(p);
                    assert(models(kept@) =~= kept_before.push(push_line(orig[i], msg@)));
                },
                Err(_) => {
                    assert(peer_full(orig[i]));
                    dropped.push(p.name);
                    assert(dropped.deep_view() =~= dropped_before.push(orig[i].name));
                },
            }
            proof {
                i = i + 1;
                assert(self.state.clients@ =~= cl.subrange(1, cl.len() as int));
                assert forall|j: int| 0 <= j < models(self.state.clients@).len() implies models(
                    self.state.clients@,
                )[j] == orig.subrange(i, n)[j] by {
                    assert(self.state.clients@[j] == cl[j + 1]);
                    assert(models(cl)[j + 1] == cl[j + 1]@);
                }
                assert(models(self.state.clients@) =~= orig.subrange(i, n));
            }
        }
        proof {
            assert(orig.take(n) =~= orig);
        }
        self.state.clients = kept;
        proof {
            lemma_deliver_registry_wf(orig, msg@);
        }
        dropped
    }

    /// Registers `name` with its mailbox, then broadcasts the join notice to
    /// everyone registered, the new peer included. The hub re-checks
    /// uniqueness even though the session pre-validated: registration is racy
    /// between validation and commit, and the registry is the single
    /// serialization point. On a conflict nothing changes and the caller
    /// reports `Name already in use` back to the peer.
    pub fn handle_connection_event(&mut self, name: String, mailbox: Mailbox) -> (r: Result<
        Vec<String>,
        NameError,
    >)
        requires
            old(self).wf(),
            mailbox.wf(),
        ensures
            final(self).wf(),
            contains_name(old(self)@, name@) ==> r == Err::<Vec<String>, NameError>(
                NameError::InUse,
            ) && final(self)@ == old(self)@,
            !contains_name(old(self)@, name@) ==> r is Ok && final(self)@ == connect_step(
                old(self)@,
                peer_model(name@, mailbox@, mailbox.capacity()),
            ) && r.unwrap().deep_view() == dropped_names(
                old(self)@.push(peer_model(name@, mailbox@, mailbox.capacity())),
            ),
    {
        let ghost orig: Seq<PeerModel> = old(self)@;
        let ghost pm: PeerModel = peer_model(name@, mailbox@, mailbox.capacity());
        if self.state.has_username(name.as_str()) {
            return Err(NameError::InUse);
        }
        let line = render_online(name.as_str());
        let ghost cl: Seq<Peer> = self.state.clients@;
        self.state.clients.push(Peer { name, mailbox });
        proof {
            assert forall|j: int| 0 <= j < models(self.state.clients@).len() implies models(
                self.state.clients@,
            )[j] == orig.push(pm)[j] by {
                if j < cl.len() {
                    assert(models(cl)[j] == cl[j]@);
                }
            }
            assert(models(self.state.clients@) =~= orig.push(pm));
            assert(names_unique(orig.push(pm))) by {
                assert(forall|j: int| 0 <= j < orig.len() ==> #[trigger] orig[j].name != pm.name);
            }
            assert(peers_wf(orig.push(pm))) by {
                assert(forall|j: int| 0 <= j < orig.len() ==> orig.push(pm)[j] == orig[j]);
            }
        }
        let dropped = self.broadcast_message(line);
        Ok(dropped)
    }

    /// Deregisters `name` if it is registered and broadcasts the leave
    /// notice; disconnecting a name that is not registered does nothing at
    /// all, so a repeated disconnect is harmless. Returns the peers
    /// force-disconnected while broadcasting the notice.
    pub fn handle_disconnection_event(&mut self, name: String) -> (dropped: Vec<String>)
        requires
            old(self).wf(),
        ensures
            final(self).wf(),
            final(self)@ == disconnect_step(old(self)@, name@),
            contains_name(old(self)@, name@) ==> dropped.deep_view() == dropped_names(
                remove_name(old(self)@, name@),
            ),
            !contains_name(old(self)@, name@) ==> final(self)@ == old(self)@ && dropped@.len()
                == 0,
    {
        let ghost orig: Seq<PeerModel> = old(self)@;
        let ghost n: int = orig.len() as int;
        if !self.state.has_username(name.as_str()) {
            return Vec::new();
        }
        let mut kept: Vec<Peer> = Vec::new();
        let ghost mut i: int = 0;
        while self.state.clients.len() > 0
            invariant
                0 <= i <= n,
                n == orig.len(),
                self.state.clients.len() == n - i,
                models(self.state.clients@) =~= orig.subrange(i, n),
                models(kept@) =~= remove_name(orig.take(i), name@),
            decreases n - i,
        {
            let ghost cl: Seq<Peer> = self.state.clients@;
            let p = self.state.clients.remove(0);
            assert(models(cl)[0] == cl[0]@);
            assert(p@ == orig[i]);
            let ghost kept_before = models(kept@);
            proof {
                assert(orig.take(i + 1).drop_last() =~= orig.take(i));
                assert(orig.take(i + 1).last() == orig[i]);
            }
            if p.name.eq(&name) {
                assert(orig[i].name == name@);
            } else {
                assert(orig[i].name != name@);
                kept.push(p);
                assert(models(kept@) =~= kept_before.push(orig[i]));
            }
            proof {
                i = i + 1;
                assert(self.state.clients@ =~= cl.subrange(1, cl.len() as int));
                assert forall|j: int| 0 <= j < models(self.state.clients@).len() implies models(
                    self.state.clients@,
                )[j] == orig.subrange(i, n)[j] by {
                    assert(self.state.clients@[j] == cl[j + 1]);
                    assert(models(cl)[j + 1] == cl[j + 1]@);
                }
                assert(models(self.state.clients@) =~= orig.subrange(i, n));
            }
        }
        proof {
            assert(orig.take(n) =~= orig);
        }
        self.state.clients = kept;
        proof {
            lemma_remove_name_registry_wf(orig, name@);
        }
        let line = render_offline(name.as_str());
        self.broadcast_message(line)
    }

    /// Processes one event, the only mutation path of the registry. Events
    /// are handled strictly one at a time; the returned names, if any, are
    /// peers force-disconnected because their mailbox was full.
    pub fn handle_event(&mut self, event: Event) -> (r: Result<Vec<String>, NameError>)
        requires
            old(self).wf(),
            event.wf(),
        ensures
            final(self).wf(),
            final(self)@ == event_step(old(self)@, event@),
            event@ matches EventModel::Message(line) ==> r is Ok && r.unwrap().deep_view()
                == dropped_names(old(self)@),
            event@ matches EventModel::Connect(p) ==> (contains_name(old(self)@, p.name) ==> r
                == Err::<Vec<String>, NameError>(NameError::InUse)) && (!contains_name(
                old(self)@,
                p.name,
            ) ==> r is Ok && r.unwrap().deep_view() == dropped_names(old(self)@.push(p))),
            event@ matches EventModel::Disconnect(dname) ==> r is Ok && (contains_name(
                old(self)@,
                dname,
            ) ==> r.unwrap().deep_view() == dropped_names(remove_name(old(self)@, dname))) && (
            !contains_name(old(self)@, dname) ==> r.unwrap()@.len() == 0),
    {
        match event {
            Event::ChatMessage(msg) => Ok(self.broadcast_message(msg)),
            Event::NewConnection(name, mailbox) => self.handle_connection_event(name, mailbox),
            Event::Disconnection(name) => Ok(self.handle_disconnection_event(name)),
        }
    }

    /// The session's local pre-check of a candidate name against the live
    /// registry; see [`State::is_name_valid`].
    pub fn is_name_valid(&mut self, name: &str) -> (r: Result<(), NameError>)
        ensures
            *final(self) == *old(self),
            r is Ok <==> valid_name(name@) && !contains_name(old(self)@, name@),
            valid_name(name@) && contains_name(old(self)@, name@) ==> r == Err::<(),
            NameError>(NameError::InUse),
    {
        self.state.is_name_valid(name)
    }

    /// The names registered right now, in registry order; the caller's guide
    /// for draining mailboxes.
    pub fn usernames(&self) -> (r: Vec<String>)
        ensures
            r.deep_view() == names_of(self@),
    {
        let mut r: Vec<String> = Vec::new();
        let n = self.state.clients.len();
        let mut j: usize = 0;
        while j < n
            invariant
                j <= n,
                n == self.state.clients.len(),
                r.deep_view() =~= names_of(self@.take(j as int)),
            decreases n - j,
        {
            let ghost before = r.deep_view();
            r.push(self.state.clients[j].name.clone());
            proof {
                assert(models(self.state.clients@)[j as int] == self.state.clients@[j as int]@);
                assert(r.deep_view() =~= before.push(self@[j as int].name));
                assert forall|l: int| 0 <= l < j + 1 implies names_of(self@.take(j + 1))[l]
                    == r.deep_view()[l] by {
                    assert(names_of(self@.take(j + 1))[l] == self@.take(j + 1)[l].name);
                    if l < j {
                        assert(names_of(self@.take(j as int))[l] == self@.take(j as int)[l].name);
                    }
                }
                assert(r.deep_view() =~= names_of(self@.take(j + 1)));
            }
            j = j + 1;
        }
        proof {
            assert(self@.take(n as int) =~= self@);
        }
        r
    }

    /// Hands out the oldest line queued for `name`, removing it from that
    /// peer's mailbox; `None` when the peer is not registered or has nothing
    /// queued. The peer's writer path calls this until empty.
    pub fn next_outgoing(&mut self, name: &str) -> (r: Option<String>)
        requires
            old(self).wf(),
        ensures
            final(self).wf(),
            !contains_name(old(self)@, name@) ==> r is None && final(self)@ == old(self)@,
            contains_name(old(self)@, name@) ==> ({
                let k = index_of_name(old(self)@, name@);
                let p = old(self)@[k];
                &&& (p.inbox.len() == 0 ==> r is None && final(self)@ == old(self)@)
                &&& (p.inbox.len() > 0 ==> r is Some && r.unwrap()@ == p.inbox[0]
                    && final(self)@ == old(self)@.update(
                    k,
                    (peer_model(p.name, p.inbox.drop_first(), p.cap)),
                ))
            }),
    {
        let ghost orig: Seq<PeerModel> = old(self)@;
        let name_owned = name.to_owned();
        let n = self.state.clients.len();
        let mut j: usize = 0;
        while j < n
            invariant
                j <= n,
                n == self.state.clients.len(),
                *self == *old(self),
                registry_wf(orig),
                orig == old(self)@,
                name_owned@ == name@,
                forall|l: int| 0 <= l < j ==> orig[l].name != name@,
            decreases n - j,
        {
            assert(models(self.state.clients@)[j as int] == self.state.clients@[j as int]@);
            if self.state.clients[j].name.eq(&name_owned) {
                proof {
                    assert(orig[j as int].name == name@);
                    assert(contains_name(orig, name@));
                    let k = index_of_name(orig, name@);
                    assert(0 <= k < orig.len() && orig[k].name == name@);
                    assert(k == j) by {
                        if k != j {
                            assert(orig[k].name == orig[j as int].name);
                        }
                    }
                }
                let ghost cl: Seq<Peer> = self.state.clients@;
                let mut p = self.state.clients.remove(j);
                let r = p.mailbox.dequeue();
                self.state.clients.insert(j, p);
                proof {
                    assert(self.state.clients@ =~= cl.update(j as int, p));
                    assert forall|l: int| 0 <= l < n implies models(self.state.clients@)[l] == (
                    if l == j {
                        p@
                    } else {
                        orig[l]
                    }) by {
                        assert(models(self.state.clients@)[l] == self.state.clients@[l]@);
                        if l != j {
                            assert(models(cl)[l] == cl[l]@);
                        }
                    }
                    if orig[j as int].inbox.len() == 0 {
                        assert(p@ == orig[j as int]);
                        assert(models(self.state.clients@) =~= orig);
                    } else {
                        assert(p@ == peer_model(
                            orig[j as int].name,
                            orig[j as int].inbox.drop_first(),
                            orig[j as int].cap,
                        ));
                        assert(models(self.state.clients@) =~= orig.update(j as int, p@));
                        assert(registry_wf(orig.update(j as int, p@))) by {
                            assert(forall|a: int, b: int|
                                0 <= a < b < orig.len() ==> orig.update(j as int, p@)[a].name
                                    == orig[a].name && orig.update(j as int, p@)[b].name
                                    == orig[b].name);
                            assert(forall|a: int|
                                0 <= a < orig.len() && a != j ==> orig.update(j as int, p@)[a]
                                    == orig[a]);
                            assert(peer_wf(p@));
                        }
                    }
                }
                return r;
            }
            j = j + 1;
        }
        assert(!contains_name(orig, name@));
        None
    }
}

/// An event flowing from a peer session into the hub: the only path by which
/// sessions reach the registry.
pub enum Event {
    /// A rendered chat line to fan out to every registered mailbox.
    ChatMessage(String),
    /// A peer that finished name negotiation, with the mailbox the hub will
    /// deliver to for the peer's connected lifetime.
    NewConnection(String, Mailbox),
    /// A peer whose connection ended, by its own hand or by error.
    Disconnection(String),
}

impl View for Event {
    type V = EventModel;

    open spec fn view(&self) -> EventModel {
        match self {
            Event::ChatMessage(m) => EventModel::Message(m@),
            Event::NewConnection(n, mb) => EventModel::Connect(
                peer_model(n@, mb@, mb.capacity()),
            ),
            Event::Disconnection(n) => EventModel::Disconnect(n@),
        }
    }
}

/// The hub-side log line for one event.
pub open spec fn describe_line(e: EventModel) -> Seq<char> {
    match e {
        EventModel::Message(m) => m,
        EventModel::Connect(p) => "["@ + p.name + "] is connected"@,
        EventModel::Disconnect(n) => "["@ + n + "] disconnected"@,
    }
}

impl Event {
    pub open spec fn wf(&self) -> bool {
        match self {
            Event::NewConnection(_, mb) => mb.wf(),
            _ => true,
        }
    }

    /// Renders the event for the hub's own log.
    pub fn describe(&self) -> (r: String)
        ensures
            r@ == describe_line(self@),
    {
        match self {
            Event::ChatMessage(m) => m.clone(),
            Event::NewConnection(n, _) => {
                let mut r = String::from_str("[");
                r.append(n.as_str());
                r.append("] is connected");
                assert(r@ =~= describe_line(self@));
                r
            },
            Event::Disconnection(n) => {
                let mut r = String::from_str("[");
                r.append(n.as_str());
                r.append("] disconnected");
                assert(r@ =~= describe_line(self@));
                r
            },
        }
    }
}

} // verus!
