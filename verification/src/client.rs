//! Peer-session logic that needs no connection: username validation and the
//! rendering of the lines of the wire protocol.
//!
//! A username is 5 to 25 characters, ASCII only. The session validates a
//! candidate locally before offering it to the hub; the hub alone is
//! authoritative for uniqueness.

use vstd::prelude::*;
use vstd::string::StrSliceExecFns;
use vstd::string::StringExecFns;
use vstd::utf8::is_ascii_chars;

verus! {

/// Shortest username accepted.
pub const NAME_MIN: usize = 5;

/// Longest username accepted.
pub const NAME_MAX: usize = 25;

/// Why a candidate username was refused. Every variant is recoverable: the
/// session re-prompts with the variant's reason line.
#[derive(Debug, PartialEq, Eq, Structural, Clone, Copy)]
pub enum NameError {
    TooShort,
    TooLong,
    NotAscii,
    InUse,
}

/// A username the relay accepts: 5 to 25 characters, all ASCII.
pub open spec fn valid_name(name: Seq<char>) -> bool {
    NAME_MIN <= name.len() <= NAME_MAX && is_ascii_chars(name)
}

pub open spec fn reason_text(e: NameError) -> Seq<char> {
    match e {
        NameError::TooShort => "Name too short"@,
        NameError::TooLong => "Name too long"@,
        NameError::NotAscii => "Name must contain ascii digits only"@,
        NameError::InUse => "Name already in use"@,
    }
}

impl NameError {
    /// The reason shown to the peer behind an `[Invalid name]:` prefix.
    pub fn reason(&self) -> (r: String)
        ensures
            r@ == reason_text(*self),
    {
        match self {
            NameError::TooShort => String::from_str("Name too short"),
            NameError::TooLong => String::from_str("Name too long"),
            NameError::NotAscii => String::from_str("Name must contain ascii digits only"),
            NameError::InUse => String::from_str("Name already in use"),
        }
    }
}

/// Checks length and character set of a candidate username; uniqueness
/// against the live registry is checked separately, by the hub.
pub fn validate_name(name: &str) -> (r: Result<(), NameError>)
    ensures
        r is Ok <==> valid_name(name@),
        name@.len() < NAME_MIN ==> r == Err::<(), NameError>(NameError::TooShort),
        name@.len() > NAME_MAX ==> r == Err::<(), NameError>(NameError::TooLong),
        NAME_MIN <= name@.len() <= NAME_MAX && !is_ascii_chars(name@) ==> r == Err::<(),
        NameError>(NameError::NotAscii),
{
    let n = name.unicode_len();
    if n < NAME_MIN {
        Err(NameError::TooShort)
    } else if n > NAME_MAX {
        Err(NameError::TooLong)
    } else if !name.is_ascii() {
        Err(NameError::NotAscii)
    } else {
        Ok(())
    }
}

/// A chat line as every peer sees it: the sender's name in brackets, then the
/// text. The session renders this before the hub fans it out, so the hub
/// never needs the sender's identity.
pub open spec fn message_line(name: Seq<char>, text: Seq<char>) -> Seq<char> {
    "["@ + name + "] "@ + text
}

/// The join notice broadcast when a peer registers.
pub open spec fn online_line(name: Seq<char>) -> Seq<char> {
    "["@ + name + "] is online"@
}

/// The leave notice broadcast when a peer deregisters.
pub open spec fn offline_line(name: Seq<char>) -> Seq<char> {
    "["@ + name + "] is offline"@
}

/// The rejection line sent to a peer whose candidate name was refused.
pub open spec fn invalid_name_line(reason: Seq<char>) -> Seq<char> {
    "[Invalid name]: "@ + reason
}

pub fn render_message(name: &str, text: &str) -> (r: String)
    ensures
        r@ == message_line(name@, text@),
{
    let mut r = String::from_str("[");
    r.append(name);
    r.append("] ");
    r.append(text);
    assert(r@ =~= message_line(name@, text@));
    r
}

pub fn render_online(name: &str) -> (r: String)
    ensures
        r@ == online_line(name@),
{
    let mut r = String::from_str("[");
    r.append(name);
    r.append("] is online");
    assert(r@ =~= online_line(name@));
    r
}

pub fn render_offline(name: &str) -> (r: String)
    ensures
        r@ == offline_line(name@),
{
    let mut r = String::from_str("[");
    r.append(name);
    r.append("] is offline");
    assert(r@ =~= offline_line(name@));
    r
}

pub fn render_invalid_name(e: &NameError) -> (r: String)
    ensures
        r@ == invalid_name_line(reason_text(*e)),
{
    let mut r = String::from_str("[Invalid name]: ");
    let reason = e.reason();
    r.append(reason.as_str());
    assert(r@ =~= invalid_name_line(reason_text(*e)));
    r
}

} // verus!
