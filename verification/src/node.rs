//! Asking a bc4py node for a fresh mining address: the request URL and what
//! the node's reply means.

use vstd::prelude::*;

verus! {

/// What a JSON document holds under a key of its top-level object.
#[derive(Debug)]
pub enum JsonMember {
    /// No such key (or the document is not an object).
    Absent,
    /// A string value.
    Text(String),
    /// A value that is not a string.
    Other,
}

/// What `serde_json` makes of the bytes `body` under `key`: the member, or the
/// text of the parse error.
pub uninterp spec fn json_member(body: Seq<u8>, key: Seq<char>) -> Result<JsonMemberView, Seq<char>>;

/// The member as a value of the specification.
pub enum JsonMemberView {
    Absent,
    Text(Seq<char>),
    Other,
}

/// The view of a member.
pub open spec fn member_view(m: JsonMember) -> JsonMemberView {
    match m {
        JsonMember::Absent => JsonMemberView::Absent,
        JsonMember::Text(s) => JsonMemberView::Text(s@),
        JsonMember::Other => JsonMemberView::Other,
    }
}

/// Calls `serde_json::from_slice::<serde_json::Value>`, then `Value::get` with
/// `key` and `Value::as_str` on what it finds; a parse error is turned into its
/// text with `ToString::to_string`. Trusted: the result is the named one.
#[verifier::external_body]
fn read_json_member(body: &[u8], key: &str) -> (r: Result<JsonMember, String>)
    ensures
        match r {
            Ok(m) => json_member(body@, key@) == Ok::<JsonMemberView, Seq<char>>(member_view(m)),
            Err(e) => json_member(body@, key@) == Err::<JsonMemberView, Seq<char>>(e@),
        },
{
    match serde_json::from_slice::<serde_json::Value>(body) {
        Err(e) => Err(e.to_string()),
        Ok(v) => Ok(match v.get(key) {
            None => JsonMember::Absent,
            Some(x) => match x.as_str() {
                Some(s) => JsonMember::Text(s.to_string()),
                None => JsonMember::Other,
            },
        }),
    }
}

/// The URL that asks the node at `url`, over `proto`, for a new mining address.
pub fn new_address_url(proto: &str, url: &str) -> (r: String)
    ensures
        r@ == proto@ + "://"@ + url@ + "/private/newaddress?account=@Mining"@,
{
    let mut r = proto.to_string();
    proof {
        vstd::string::to_string_from_display_ensures_for_str(proto, r);
    }
    r.append("://");
    r.append(url);
    r.append("/private/newaddress?account=@Mining");
    r
}

/// What a node's reply to an address request means.
#[derive(Debug)]
pub enum AddressReply {
    /// The new address.
    Address(String),
    /// The status code was not 200.
    BadStatus(u16),
    /// The body is not JSON; the parser's message.
    NotJson(String),
    /// The JSON holds no `address` key.
    MissingAddress,
    /// The `address` value is not a string.
    AddressNotText,
}

/// Reads the reply of a node: status 200 and a JSON body (its raw bytes) with a
/// string `address` give that address.
pub fn read_address_reply(status: u16, body: &[u8]) -> (r: AddressReply)
    ensures
        status != 200 ==> r == AddressReply::BadStatus(status),
        status == 200 ==> match json_member(body@, "address"@) {
            Err(e) => r matches AddressReply::NotJson(m) && m@ == e,
            Ok(JsonMemberView::Absent) => r == AddressReply::MissingAddress,
            Ok(JsonMemberView::Other) => r == AddressReply::AddressNotText,
            Ok(JsonMemberView::Text(a)) => r matches AddressReply::Address(s) && s@ == a,
        },
{
    if status != 200 {
        return AddressReply::BadStatus(status);
    }
    match read_json_member(body, "address") {
        Err(e) => AddressReply::NotJson(e),
        Ok(JsonMember::Absent) => AddressReply::MissingAddress,
        Ok(JsonMember::Other) => AddressReply::AddressNotText,
        Ok(JsonMember::Text(a)) => AddressReply::Address(a),
    }
}

} // verus!
