//! Optional and fallible lookups: user names by id, and port numbers.

use vstd::prelude::*;
use vstd::string::*;
use vstd::utf8::*;
use crate::text::{decimal, owned, parse_unsigned, parse_unsigned_spec, push_decimal, IntParseError};

verus! {

broadcast use vstd::string::group_string_axioms;

/// The known user names: 1 is Alice, 2 is Bob.
pub open spec fn username(id: u32) -> Option<Seq<char>> {
    if id == 1 {
        Some("Alice"@)
    } else if id == 2 {
        Some("Bob"@)
    } else {
        None
    }
}

/// Exactly two ids have a user name: 1 is Alice and 2 is Bob; every other
/// id has none.
pub proof fn lemma_only_two_users(id: u32)
    ensures
        username(id) is Some <==> (id == 1 || id == 2),
        id == 1 ==> username(id) == Some("Alice"@),
        id == 2 ==> username(id) == Some("Bob"@),
{
}

/// The name of the user with this id, if there is one.
pub fn get_username_by_id(id: u32) -> (r: Option<String>)
    ensures
        match r {
            Some(name) => username(id) == Some(name@),
            None => username(id) is None,
        },
        r is Some <==> (id == 1 || id == 2),
        id == 1 ==> (r matches Some(name) && name@ == "Alice"@),
        id == 2 ==> (r matches Some(name) && name@ == "Bob"@),
{
    match id {
        1 => Some(owned("Alice")),
        2 => Some(owned("Bob")),
        _ => None,
    }
}

/// A port number read from text: a `u16` above the well-known range
/// (1024 to 65535), or the reason it is refused.
pub open spec fn port_spec(text: Seq<u8>) -> Result<u16, Seq<char>> {
    match parse_unsigned_spec(text, u16::MAX as nat) {
        Err(e) => Err("Invalid port format: "@ + e.spec_message()),
        Ok(port) => if port > 1023 {
            Ok(port as u16)
        } else {
            Err("Port "@ + decimal(port) + " is outside valid range (1024-65535)"@)
        },
    }
}

/// A port printed in decimal is accepted exactly when it is above 1023.
pub proof fn lemma_port_range(port: u16)
    ensures
        port_spec(encode_utf8(decimal(port as nat))) == if port > 1023 {
            Ok::<u16, Seq<char>>(port)
        } else {
            Err("Port "@ + decimal(port as nat) + " is outside valid range (1024-65535)"@)
        },
{
    crate::text::lemma_decimal_parses_back(port as nat, u16::MAX as nat);
}

/// Reads a port number, refusing text that is not a `u16` and ports below 1024.
pub fn parse_port(port_str: &str) -> (r: Result<u16, String>)
    ensures
        match r {
            Ok(port) => port_spec(port_str.spec_bytes()) == Ok::<u16, Seq<char>>(port),
            Err(e) => port_spec(port_str.spec_bytes()) == Err::<u16, Seq<char>>(e@),
        },
{
    match parse_unsigned(port_str.as_bytes(), 0xffff) {
        Err(e) => {
            let mut message = owned("Invalid port format: ");
            let description = e.message();
            message.append(description.as_str());
            Err(message)
        },
        Ok(port) => {
            if port > 1023 {
                Ok(port as u16)
            } else {
                let mut message = owned("Port ");
                push_decimal(&mut message, port);
                message.append(" is outside valid range (1024-65535)");
                Err(message)
            }
        },
    }
}

} // verus!
