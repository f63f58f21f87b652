//! The text of the frames that a client sends: the handshake and the
//! subscription request.
use vstd::prelude::*;

verus! {

/// The CONNECT frame that opens a session on `host` with the given
/// credentials.
pub fn connect_frame(host: &str, username: &str, password: &str) -> (r: String)
    ensures
        r@ == "CONNECT\naccept-version:1.2\nhost:"@ + host@ + "\nlogin:"@ + username@
            + "\npasscode:"@ + password@ + "\n\n\0"@,
{
    let mut frame = String::from_str("CONNECT\naccept-version:1.2\nhost:");
    frame.append(host);
    frame.append("\nlogin:");
    frame.append(username);
    frame.append("\npasscode:");
    frame.append(password);
    frame.append("\n\n\0");
    frame
}

/// The SUBSCRIBE frame that asks for the feed of `topic`, with automatic
/// acknowledgement.
pub fn subscribe_frame(topic: &str) -> (r: String)
    ensures
        r@ == "SUBSCRIBE\nid:sub-1\ndestination:/topic/"@ + topic@ + "\nack:auto\n\n\0"@,
{
    let mut frame = String::from_str("SUBSCRIBE\nid:sub-1\ndestination:/topic/");
    frame.append(topic);
    frame.append("\nack:auto\n\n\0");
    frame
}

} // verus!
