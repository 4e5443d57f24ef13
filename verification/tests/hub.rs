use chat_hub::client::render_message;
use chat_hub::client::render_invalid_name;
use chat_hub::client::NameError;
use chat_hub::mailbox::Mailbox;
use chat_hub::server::Event;
use chat_hub::server::Server;
use chat_hub::server::State;

fn hub() -> Server {
    Server::make(State::make())
}

#[test]
fn two_peers_exchange_a_message() {
    let mut hub = hub();
    hub.handle_connection_event("alice".to_string(), Mailbox::make(16)).unwrap();
    hub.handle_connection_event("bobby".to_string(), Mailbox::make(16)).unwrap();
    let line = render_message("alice", "hi");
    hub.handle_event(Event::ChatMessage(line)).unwrap();
    // bobby joined after alice: his mailbox holds his own join notice, then
    // the chat line, in hub-processing order.
    assert_eq!(hub.next_outgoing("bobby"), Some("[bobby] is online".to_string()));
    assert_eq!(hub.next_outgoing("bobby"), Some("[alice] hi".to_string()));
    assert_eq!(hub.next_outgoing("bobby"), None);
    // alice receives her own join notice exactly once.
    assert_eq!(hub.next_outgoing("alice"), Some("[alice] is online".to_string()));
    assert_eq!(hub.next_outgoing("alice"), Some("[bobby] is online".to_string()));
    assert_eq!(hub.next_outgoing("alice"), Some("[alice] hi".to_string()));
    assert_eq!(hub.next_outgoing("alice"), None);
}

#[test]
fn name_conflict_is_reported_and_holder_unaffected() {
    let mut hub = hub();
    hub.handle_connection_event("bobby".to_string(), Mailbox::make(8)).unwrap();
    let e = hub.handle_connection_event("bobby".to_string(), Mailbox::make(8)).unwrap_err();
    assert_eq!(e, NameError::InUse);
    assert_eq!(render_invalid_name(&e), "[Invalid name]: Name already in use");
    // the local pre-check agrees
    assert_eq!(hub.is_name_valid("bobby"), Err(NameError::InUse));
    // the holder is unaffected
    assert_eq!(hub.usernames(), vec!["bobby".to_string()]);
    assert_eq!(hub.next_outgoing("bobby"), Some("[bobby] is online".to_string()));
    // a fresh name is accepted on re-prompt
    assert!(hub.handle_connection_event("carol".to_string(), Mailbox::make(8)).is_ok());
}

#[test]
fn full_mailbox_forces_disconnect_of_that_peer_only() {
    let mut hub = hub();
    // emily's mailbox holds two lines: her own join notice, then frank's.
    hub.handle_connection_event("emily".to_string(), Mailbox::make(2)).unwrap();
    hub.handle_connection_event("frank".to_string(), Mailbox::make(8)).unwrap();
    // the next broadcast finds emily full: she is dropped, frank still served.
    let dropped = hub.handle_event(Event::ChatMessage(render_message("frank", "one"))).unwrap();
    assert_eq!(dropped, vec!["emily".to_string()]);
    assert_eq!(hub.usernames(), vec!["frank".to_string()]);
    assert_eq!(hub.next_outgoing("frank"), Some("[frank] is online".to_string()));
    assert_eq!(hub.next_outgoing("frank"), Some("[frank] one".to_string()));
    assert_eq!(hub.next_outgoing("frank"), None);
    assert_eq!(hub.next_outgoing("emily"), None);
}

#[test]
fn disconnect_of_unregistered_name_is_a_no_op_twice_over() {
    let mut hub = hub();
    hub.handle_connection_event("alice".to_string(), Mailbox::make(8)).unwrap();
    let before = hub.usernames();
    let d1 = hub.handle_disconnection_event("nobodyhere".to_string());
    assert!(d1.is_empty());
    assert_eq!(hub.usernames(), before);
    let d2 = hub.handle_disconnection_event("nobodyhere".to_string());
    assert!(d2.is_empty());
    assert_eq!(hub.usernames(), before);
    // no stray notice reached alice
    assert_eq!(hub.next_outgoing("alice"), Some("[alice] is online".to_string()));
    assert_eq!(hub.next_outgoing("alice"), None);
}

#[test]
fn freed_name_is_reusable() {
    let mut hub = hub();
    hub.handle_connection_event("alice".to_string(), Mailbox::make(8)).unwrap();
    hub.handle_connection_event("bobby".to_string(), Mailbox::make(8)).unwrap();
    let dropped = hub.handle_event(Event::Disconnection("alice".to_string())).unwrap();
    assert!(dropped.is_empty());
    assert_eq!(hub.usernames(), vec!["bobby".to_string()]);
    // the freed name registers again at once
    assert!(hub.handle_connection_event("alice".to_string(), Mailbox::make(8)).is_ok());
    // bobby saw the full story in order
    assert_eq!(hub.next_outgoing("bobby"), Some("[bobby] is online".to_string()));
    assert_eq!(hub.next_outgoing("bobby"), Some("[alice] is offline".to_string()));
    assert_eq!(hub.next_outgoing("bobby"), Some("[alice] is online".to_string()));
    assert_eq!(hub.next_outgoing("bobby"), None);
}

#[test]
fn connect_then_disconnect_through_events() {
    let mut hub = hub();
    let dropped =
        hub.handle_event(Event::NewConnection("alice".to_string(), Mailbox::make(4))).unwrap();
    assert!(dropped.is_empty());
    let r = hub.handle_event(Event::NewConnection("alice".to_string(), Mailbox::make(4)));
    assert_eq!(r, Err(NameError::InUse));
    let dropped = hub.handle_event(Event::Disconnection("alice".to_string())).unwrap();
    assert!(dropped.is_empty());
    assert!(hub.usernames().is_empty());
}

#[test]
fn broadcast_reaches_every_registered_peer_once() {
    let mut hub = hub();
    hub.handle_connection_event("alice".to_string(), Mailbox::make(16)).unwrap();
    hub.handle_connection_event("bobby".to_string(), Mailbox::make(16)).unwrap();
    hub.handle_connection_event("carol".to_string(), Mailbox::make(16)).unwrap();
    let dropped = hub.broadcast_message(render_message("carol", "all here?"));
    assert!(dropped.is_empty());
    for name in ["alice", "bobby", "carol"] {
        let mut seen = 0;
        while let Some(line) = hub.next_outgoing(name) {
            if line == "[carol] all here?" {
                seen += 1;
            }
        }
        assert_eq!(seen, 1);
    }
}

#[test]
fn state_starts_empty() {
    let mut st = State::make();
    assert!(!st.has_username("alice"));
    assert_eq!(st.is_name_valid("alice"), Ok(()));
    assert_eq!(st.is_name_valid("abc"), Err(NameError::TooShort));
}
