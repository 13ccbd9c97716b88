use vstd::prelude::*;

verus! {

/// The namespace that every frame of the connection channel carries.
pub const CHANNEL_NAMESPACE: &'static str = "urn:x-cast:com.google.cast.tp.connection";

/// The identifier this client gives of itself in each request body.
pub const CHANNEL_USER_AGENT: &'static str = "RustCast";

/// Message type of a request that opens a session.
pub const MESSAGE_TYPE_CONNECT: &'static str = "CONNECT";

/// Message type of a request that closes a session.
pub const MESSAGE_TYPE_CLOSE: &'static str = "CLOSE";

/// The body of a frame: text (a JSON document) or raw bytes.
#[derive(Clone, Debug, PartialEq, Eq)]
pub enum FramePayload {
    Text(String),
    Binary(Vec<u8>),
}

/// One unit of the wire protocol.
#[derive(Clone, Debug, PartialEq, Eq)]
pub struct Frame {
    pub namespace: String,
    pub source: String,
    pub destination: String,
    pub payload: FramePayload,
}

/// One of the two message types a request carries. Neither needs escaping
/// inside a JSON string.
pub open spec fn is_message_type(kind: Seq<char>) -> bool {
    kind == MESSAGE_TYPE_CONNECT@ || kind == MESSAGE_TYPE_CLOSE@
}

/// The JSON text of a request body of the given message type:
/// `{"type":"<kind>","userAgent":"RustCast"}`.
pub open spec fn request_body(kind: Seq<char>) -> Seq<char> {
    "{\"type\":\""@ + kind + "\",\"userAgent\":\""@ + CHANNEL_USER_AGENT@ + "\"}"@
}

/// `f` is a request frame of type `kind` from `source` to `destination` in the
/// channel's namespace.
pub open spec fn is_request_frame(
    f: Frame,
    source: Seq<char>,
    destination: Seq<char>,
    kind: Seq<char>,
) -> bool {
    &&& f.namespace@ == CHANNEL_NAMESPACE@
    &&& f.source@ == source
    &&& f.destination@ == destination
    &&& f.payload is Text
    &&& f.payload->Text_0@ == request_body(kind)
}

/// Builds the JSON text of a request body of the given message type.
pub fn request_body_text(kind: &str) -> (r: String)
    requires
        is_message_type(kind@),
    ensures
        r@ == request_body(kind@),
{
    let mut body = "{\"type\":\"".to_owned();
    body.append(kind);
    body.append("\",\"userAgent\":\"");
    body.append(CHANNEL_USER_AGENT);
    body.append("\"}");
    body
}

/// Builds a request frame of type `kind` from `source` to `destination`.
pub fn request_frame(source: &str, destination: &str, kind: &str) -> (f: Frame)
    requires
        is_message_type(kind@),
    ensures
        is_request_frame(f, source@, destination@, kind@),
{
    Frame {
        namespace: CHANNEL_NAMESPACE.to_owned(),
        source: source.to_owned(),
        destination: destination.to_owned(),
        payload: FramePayload::Text(request_body_text(kind)),
    }
}

} // verus!
