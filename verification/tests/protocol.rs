use chat_hub::client::render_invalid_name;
use chat_hub::client::render_message;
use chat_hub::client::render_offline;
use chat_hub::client::render_online;
use chat_hub::client::validate_name;
use chat_hub::client::NameError;
use chat_hub::mailbox::Mailbox;
use chat_hub::mailbox::MailboxError;
use chat_hub::server::Event;

#[test]
fn name_length_boundaries() {
    assert_eq!(validate_name("abcd"), Err(NameError::TooShort));
    assert_eq!(validate_name(""), Err(NameError::TooShort));
    assert!(validate_name("abcde").is_ok());
    assert!(validate_name("abcdefghijklmnopqrstuvwxy").is_ok());
    assert_eq!(validate_name("abcdefghijklmnopqrstuvwxyz"), Err(NameError::TooLong));
}

#[test]
fn name_must_be_ascii() {
    // five characters, the last one beyond ASCII
    assert_eq!(validate_name("abcd\u{e9}"), Err(NameError::NotAscii));
    assert_eq!(validate_name("na\u{ef}ve1"), Err(NameError::NotAscii));
    assert!(validate_name("plain_name_42").is_ok());
}

#[test]
fn rejection_reasons_render_as_prompt_lines() {
    assert_eq!(NameError::TooShort.reason(), "Name too short");
    assert_eq!(NameError::TooLong.reason(), "Name too long");
    assert_eq!(NameError::NotAscii.reason(), "Name must contain ascii digits only");
    assert_eq!(NameError::InUse.reason(), "Name already in use");
    assert_eq!(render_invalid_name(&NameError::TooShort), "[Invalid name]: Name too short");
}

#[test]
fn lines_render_with_bracketed_sender() {
    assert_eq!(render_message("alice", "hi"), "[alice] hi");
    assert_eq!(render_message("alice", ""), "[alice] ");
    assert_eq!(render_online("alice"), "[alice] is online");
    assert_eq!(render_offline("alice"), "[alice] is offline");
}

#[test]
fn events_describe_themselves() {
    assert_eq!(Event::ChatMessage("[alice] hi".to_string()).describe(), "[alice] hi");
    assert_eq!(
        Event::NewConnection("alice".to_string(), Mailbox::make(4)).describe(),
        "[alice] is connected"
    );
    assert_eq!(Event::Disconnection("alice".to_string()).describe(), "[alice] disconnected");
}

#[test]
fn mailbox_is_fifo_and_bounded() {
    let mut mb = Mailbox::make(2);
    assert_eq!(mb.len(), 0);
    assert_eq!(mb.dequeue(), None);
    assert_eq!(mb.enqueue("one".to_string()), Ok(()));
    assert_eq!(mb.enqueue("two".to_string()), Ok(()));
    assert_eq!(mb.enqueue("three".to_string()), Err(MailboxError::Full));
    assert_eq!(mb.len(), 2);
    assert_eq!(mb.dequeue(), Some("one".to_string()));
    // room again after a drain
    assert_eq!(mb.enqueue("three".to_string()), Ok(()));
    assert_eq!(mb.dequeue(), Some("two".to_string()));
    assert_eq!(mb.dequeue(), Some("three".to_string()));
    assert_eq!(mb.dequeue(), None);
}
