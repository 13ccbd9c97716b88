use vstd::prelude::*;

use crate::frame::{
    is_request_frame, request_frame, Frame, FramePayload, CHANNEL_NAMESPACE, MESSAGE_TYPE_CLOSE,
    MESSAGE_TYPE_CONNECT,
};
use crate::json::{decode_json, json_decode, json_member, json_object, json_str, member, object_of, string_of};

verus! {

/// A decoded inbound frame of the connection namespace.
#[derive(Clone, Debug)]
pub enum ConnectionResponse {
    Connect,
    Close,
    /// A message type this channel does not know, with the whole decoded body.
    NotImplemented(String, serde_json::Value),
}

/// Why an inbound frame could not be decoded.
#[derive(Debug)]
pub enum ChannelError {
    /// The text of the frame is not a JSON document.
    Serialization(serde_json::Error),
    /// The frame carries a binary payload, which this namespace never uses.
    Internal(String),
}

/// The message of the error for a binary payload.
pub const BINARY_PAYLOAD_MESSAGE: &'static str = "Binary payload is not supported!";

/// The message type of a decoded body: its `type` member where the body is an
/// object and that member is a string, else the empty string.
pub open spec fn type_member(v: serde_json::Value) -> Seq<char> {
    match json_object(v) {
        Some(m) => match json_member(m, "type"@) {
            Some(p) => match json_str(p) {
                Some(t) => t,
                None => Seq::empty(),
            },
            None => Seq::empty(),
        },
        None => Seq::empty(),
    }
}

/// `resp` is the response that an inbound body of message type `t` decodes to.
pub open spec fn responds_to(resp: ConnectionResponse, t: Seq<char>) -> bool {
    if t == MESSAGE_TYPE_CONNECT@ {
        resp is Connect
    } else if t == MESSAGE_TYPE_CLOSE@ {
        resp is Close
    } else {
        resp matches ConnectionResponse::NotImplemented(s, _) && s@ == t
    }
}

/// What a channel holds, as sets of destination names.
pub struct ChannelModel {
    /// The name of this endpoint, the source of every frame it builds.
    pub sender: Seq<char>,
    /// Destinations whose CONNECT frame was sent.
    pub connected: Set<Seq<char>>,
    /// Destinations whose CONNECT frame was handed out and whose send has not
    /// been reported yet.
    pub pending: Set<Seq<char>>,
}

/// A CONNECT frame was sent for `d`, or is on its way.
pub open spec fn claimed(m: ChannelModel, d: Seq<char>) -> bool {
    m.connected.contains(d) || m.pending.contains(d)
}

/// The state after `connect(d)`: an unclaimed destination becomes pending.
pub open spec fn after_connect(m: ChannelModel, d: Seq<char>) -> ChannelModel {
    if claimed(m, d) {
        m
    } else {
        ChannelModel { pending: m.pending.insert(d), ..m }
    }
}

/// The state after the send of the CONNECT frame for `d` is reported: it is no
/// longer pending, and it is connected if the send succeeded.
pub open spec fn after_connect_result(m: ChannelModel, d: Seq<char>, sent: bool) -> ChannelModel {
    ChannelModel {
        pending: m.pending.remove(d),
        connected: if sent {
            m.connected.insert(d)
        } else {
            m.connected
        },
        ..m
    }
}

/// The names held in a list of strings.
pub open spec fn names_of(v: Seq<String>) -> Set<Seq<char>> {
    Set::new(|s: Seq<char>| exists|i: int| 0 <= i < v.len() && #[trigger] v[i]@ == s)
}

/// No name occurs twice in the list.
pub open spec fn distinct_names(v: Seq<String>) -> bool {
    forall|i: int, j: int| 0 <= i < v.len() && 0 <= j < v.len() && i != j ==> #[trigger] v[i]@ != #[trigger] v[j]@
}

proof fn lemma_names_push(v: Seq<String>, s: String)
    requires
        distinct_names(v),
        !names_of(v).contains(s@),
    ensures
        names_of(v.push(s)) == names_of(v).insert(s@),
        distinct_names(v.push(s)),
{
    let w = v.push(s);
    assert forall|x: Seq<char>| names_of(w).contains(x) <==> names_of(v).insert(s@).contains(x) by {
        if names_of(v).contains(x) {
            let i = choose|i: int| 0 <= i < v.len() && #[trigger] v[i]@ == x;
            assert(w[i]@ == x);
        }
        if x == s@ {
            assert(w[v.len() as int]@ == x);
        }
        if names_of(w).contains(x) {
            let i = choose|i: int| 0 <= i < w.len() && #[trigger] w[i]@ == x;
            if i < v.len() {
                assert(v[i]@ == x);
            }
        }
    }
    assert(names_of(w) =~= names_of(v).insert(s@));
    assert forall|i: int, j: int| 0 <= i < w.len() && 0 <= j < w.len() && i != j implies #[trigger] w[i]@ != #[trigger] w[j]@ by {
        if i < v.len() && j < v.len() {
            assert(v[i]@ != v[j]@);
        } else if i < v.len() {
            assert(v[i]@ == w[i]@);
        } else {
            assert(v[j]@ == w[j]@);
        }
    }
}

proof fn lemma_names_remove(v: Seq<String>, k: int)
    requires
        distinct_names(v),
        0 <= k < v.len(),
    ensures
        names_of(v.remove(k)) == names_of(v).remove(v[k]@),
        distinct_names(v.remove(k)),
{
    let w = v.remove(k);
    assert forall|x: Seq<char>| names_of(w).contains(x) <==> names_of(v).remove(v[k]@).contains(x) by {
        if names_of(w).contains(x) {
            let i = choose|i: int| 0 <= i < w.len() && #[trigger] w[i]@ == x;
            if i < k {
                assert(v[i]@ == x);
                assert(v[i]@ != v[k]@);
            } else {
                assert(v[i + 1]@ == x);
                assert(v[i + 1]@ != v[k]@);
            }
        }
        if names_of(v).remove(v[k]@).contains(x) {
            let i = choose|i: int| 0 <= i < v.len() && #[trigger] v[i]@ == x;
            if i < k {
                assert(w[i]@ == x);
            } else {
                assert(i != k);
                assert(w[i - 1]@ == x);
            }
        }
    }
    assert(names_of(w) =~= names_of(v).remove(v[k]@));
    assert forall|i: int, j: int| 0 <= i < w.len() && 0 <= j < w.len() && i != j implies #[trigger] w[i]@ != #[trigger] w[j]@ by {
        let a = if i < k { i } else { i + 1 };
        let b = if j < k { j } else { j + 1 };
        assert(w[i]@ == v[a]@);
        assert(w[j]@ == v[b]@);
    }
}

/// The position of `name` in `v`, if it is there.
fn find_name(v: &Vec<String>, name: &String) -> (r: Option<usize>)
    ensures
        r matches Some(i) ==> i < v@.len() && v@[i as int]@ == name@,
        r is None ==> !names_of(v@).contains(name@),
{
    let mut i: usize = 0;
    while i < v.len()
        invariant
            i <= v@.len(),
            forall|j: int| 0 <= j < i ==> #[trigger] v@[j]@ != name@,
        decreases v@.len() - i,
    {
        if v[i] == *name {
            return Some(i);
        }
        i = i + 1;
    }
    None
}

/// The connection channel of one endpoint: which destinations it has opened a
/// session with, the frames that open and close sessions, and the decoding of
/// inbound frames of its namespace.
///
/// `connect` claims a destination before its frame goes out, so that however
/// calls interleave, a destination gets one CONNECT frame until a send fails.
pub struct ConnectionChannel {
    sender: String,
    connections: Vec<String>,
    pending: Vec<String>,
}

impl View for ConnectionChannel {
    type V = ChannelModel;

    closed spec fn view(&self) -> ChannelModel {
        ChannelModel {
            sender: self.sender@,
            connected: names_of(self.connections@),
            pending: names_of(self.pending@),
        }
    }
}

impl ConnectionChannel {
    /// The lists hold no name twice.
    pub closed spec fn wf(&self) -> bool {
        distinct_names(self.connections@) && distinct_names(self.pending@)
    }

    /// A channel for the endpoint `sender`, connected to nothing.
    pub fn new(sender: &str) -> (c: ConnectionChannel)
        ensures
            c.wf(),
            c@.sender == sender@,
            c@.connected == Set::<Seq<char>>::empty(),
            c@.pending == Set::<Seq<char>>::empty(),
    {
        let c = ConnectionChannel { sender: sender.to_owned(), connections: Vec::new(), pending: Vec::new() };
        assert(c@.connected =~= Set::<Seq<char>>::empty());
        assert(c@.pending =~= Set::<Seq<char>>::empty());
        c
    }

    /// Claims `destination` and hands out the CONNECT frame to send to it, or
    /// `None` where it is connected already or its frame is on its way. The
    /// outcome of the send is then reported to `connect_result`.
    pub fn connect(&mut self, destination: &str) -> (r: Option<Frame>)
        requires
            old(self).wf(),
        ensures
            final(self).wf(),
            final(self)@ == after_connect(old(self)@, destination@),
            r is Some <==> !claimed(old(self)@, destination@),
            r matches Some(f) ==> is_request_frame(f, old(self)@.sender, destination@, MESSAGE_TYPE_CONNECT@),
    {
        let name = destination.to_owned();
        if find_name(&self.connections, &name).is_some() || find_name(&self.pending, &name).is_some() {
            return None;
        }
        proof {
            lemma_names_push(self.pending@, name);
        }
        self.pending.push(name);
        assert(self@ == after_connect(old(self)@, destination@));
        Some(request_frame(self.sender.as_str(), destination, MESSAGE_TYPE_CONNECT))
    }

    /// Records the outcome of sending the CONNECT frame for `destination`:
    /// it is no longer pending, and it is connected where `sent` holds.
    pub fn connect_result(&mut self, destination: &str, sent: bool)
        requires
            old(self).wf(),
            old(self)@.pending.contains(destination@),
        ensures
            final(self).wf(),
            final(self)@ == after_connect_result(old(self)@, destination@, sent),
    {
        let name = destination.to_owned();
        match find_name(&self.pending, &name) {
            Some(i) => {
                proof {
                    lemma_names_remove(self.pending@, i as int);
                }
                self.pending.remove(i);
            },
            None => {
                assert(names_of(self.pending@).remove(name@) =~= names_of(self.pending@));
            },
        }
        if sent {
            match find_name(&self.connections, &name) {
                Some(_) => {
                    assert(names_of(self.connections@).insert(name@) =~= names_of(self.connections@));
                },
                None => {
                    proof {
                        lemma_names_push(self.connections@, name);
                    }
                    self.connections.push(name);
                },
            }
        }
        assert(self@ == after_connect_result(old(self)@, destination@, sent));
    }

    /// The CLOSE frame for `destination`. Closing leaves the set of connected
    /// destinations as it is: a later `connect` to it sends nothing.
    pub fn disconnect(&self, destination: &str) -> (f: Frame)
        ensures
            is_request_frame(f, self@.sender, destination@, MESSAGE_TYPE_CLOSE@),
    {
        request_frame(self.sender.as_str(), destination, MESSAGE_TYPE_CLOSE)
    }

    /// Whether a CONNECT frame was sent to `destination`.
    pub fn is_connected(&self, destination: &str) -> (r: bool)
        ensures
            r == self@.connected.contains(destination@),
    {
        let name = destination.to_owned();
        find_name(&self.connections, &name).is_some()
    }

    /// Whether `frame` belongs to the connection namespace.
    pub fn can_handle(&self, frame: &Frame) -> (r: bool)
        ensures
            r == (frame.namespace@ == CHANNEL_NAMESPACE@),
    {
        frame.namespace == CHANNEL_NAMESPACE.to_owned()
    }

    /// Decodes an inbound frame of the connection namespace.
    pub fn parse(&self, frame: &Frame) -> (r: Result<ConnectionResponse, ChannelError>)
        ensures
            frame.payload is Binary ==> (r matches Err(ChannelError::Internal(m)) && m@ == BINARY_PAYLOAD_MESSAGE@),
            frame.payload matches FramePayload::Text(t) ==> match json_decode(t@) {
                Some(v) => {
                    &&& r is Ok
                    &&& responds_to(r->Ok_0, type_member(v))
                    &&& (r->Ok_0 matches ConnectionResponse::NotImplemented(_, raw) ==> raw == v)
                },
                None => (r matches Err(e) && e is Serialization),
            },
    {
        match &frame.payload {
            FramePayload::Text(text) => match decode_json(text.as_str()) {
                Ok(reply) => {
                    let message_type = message_type_of(&reply);
                    let resp = response_for_type(message_type, reply);
                    Ok(resp)
                },
                Err(e) => Err(ChannelError::Serialization(e)),
            },
            FramePayload::Binary(_) => Err(ChannelError::Internal(BINARY_PAYLOAD_MESSAGE.to_owned())),
        }
    }
}

/// The `type` member of a decoded body, or the empty string where the body is
/// no object or the member is missing or no string.
fn message_type_of(reply: &serde_json::Value) -> (r: String)
    ensures
        r@ == type_member(*reply),
{
    match object_of(reply) {
        Some(obj) => match member(obj, "type") {
            Some(property) => match string_of(property) {
                Some(s) => s.to_owned(),
                None => String::new(),
            },
            None => String::new(),
        },
        None => String::new(),
    }
}

/// The response for a decoded body `raw` whose message type is `message_type`.
pub fn response_for_type(message_type: String, raw: serde_json::Value) -> (r: ConnectionResponse)
    ensures
        responds_to(r, message_type@),
        r matches ConnectionResponse::NotImplemented(_, v) ==> v == raw,
{
    if message_type == MESSAGE_TYPE_CONNECT.to_owned() {
        ConnectionResponse::Connect
    } else if message_type == MESSAGE_TYPE_CLOSE.to_owned() {
        ConnectionResponse::Close
    } else {
        ConnectionResponse::NotImplemented(message_type, raw)
    }
}

/// A call on a channel, as the laws below replay them.
pub enum ChannelEvent {
    /// `connect(d)`.
    Connect(Seq<char>),
    /// `connect_result(d, sent)`.
    ConnectResult(Seq<char>, bool),
}

/// The state after one call.
pub open spec fn step(m: ChannelModel, e: ChannelEvent) -> ChannelModel {
    match e {
        ChannelEvent::Connect(d) => after_connect(m, d),
        ChannelEvent::ConnectResult(d, sent) => after_connect_result(m, d, sent),
    }
}

/// The state after a run of calls.
pub open spec fn run(m: ChannelModel, events: Seq<ChannelEvent>) -> ChannelModel
    decreases events.len(),
{
    if events.len() == 0 {
        m
    } else {
        run(step(m, events[0]), events.drop_first())
    }
}

/// The call hands out a CONNECT frame for `d`.
pub open spec fn emits_connect(m: ChannelModel, e: ChannelEvent, d: Seq<char>) -> bool {
    e == ChannelEvent::Connect(d) && !claimed(m, d)
}

/// The number of CONNECT frames for `d` that a run of calls hands out.
pub open spec fn connect_frames(m: ChannelModel, events: Seq<ChannelEvent>, d: Seq<char>) -> nat
    decreases events.len(),
{
    if events.len() == 0 {
        0
    } else {
        (if emits_connect(m, events[0], d) { 1nat } else { 0nat }) + connect_frames(
            step(m, events[0]),
            events.drop_first(),
            d,
        )
    }
}

/// The number of failed sends reported for `d` in a run of calls.
pub open spec fn failed_sends(events: Seq<ChannelEvent>, d: Seq<char>) -> nat
    decreases events.len(),
{
    if events.len() == 0 {
        0
    } else {
        (if events[0] == ChannelEvent::ConnectResult(d, false) { 1nat } else { 0nat }) + failed_sends(
            events.drop_first(),
            d,
        )
    }
}

/// Whatever the order in which callers' calls reach the channel, a destination
/// that is not yet claimed gets at most one CONNECT frame, plus one more after
/// each failed send; one that is claimed gets none until a send fails.
pub proof fn lemma_connect_at_most_once(m: ChannelModel, events: Seq<ChannelEvent>, d: Seq<char>)
    ensures
        connect_frames(m, events, d) <= (if claimed(m, d) { 0nat } else { 1nat }) + failed_sends(events, d),
    decreases events.len(),
{
    if events.len() > 0 {
        let m1 = step(m, events[0]);
        lemma_connect_at_most_once(m1, events.drop_first(), d);
        match events[0] {
            ChannelEvent::Connect(x) => {
                if x != d {
                    assert(claimed(m1, d) == claimed(m, d));
                }
            },
            ChannelEvent::ConnectResult(x, sent) => {
                if x != d {
                    assert(claimed(m1, d) == claimed(m, d));
                }
            },
        }
    }
}

/// Calling `connect(d)` twice hands out one CONNECT frame for `d`, whether or
/// not the first send is reported as done in between.
pub proof fn lemma_connect_twice(m: ChannelModel, d: Seq<char>)
    requires
        !claimed(m, d),
    ensures
        connect_frames(m, seq![ChannelEvent::Connect(d), ChannelEvent::Connect(d)], d) == 1,
        connect_frames(
            m,
            seq![ChannelEvent::Connect(d), ChannelEvent::ConnectResult(d, true), ChannelEvent::Connect(d)],
            d,
        ) == 1,
{
    let e1 = seq![ChannelEvent::Connect(d), ChannelEvent::Connect(d)];
    let m1 = after_connect(m, d);
    assert(e1.drop_first() =~= seq![ChannelEvent::Connect(d)]);
    assert(e1.drop_first().drop_first() =~= Seq::<ChannelEvent>::empty());
    assert(claimed(m1, d));
    assert(connect_frames(after_connect(m1, d), Seq::<ChannelEvent>::empty(), d) == 0);
    assert(connect_frames(m1, e1.drop_first(), d) == 0);
    let e2 = seq![ChannelEvent::Connect(d), ChannelEvent::ConnectResult(d, true), ChannelEvent::Connect(d)];
    let m2 = after_connect_result(m1, d, true);
    assert(e2.drop_first() =~= seq![ChannelEvent::ConnectResult(d, true), ChannelEvent::Connect(d)]);
    assert(e2.drop_first().drop_first() =~= seq![ChannelEvent::Connect(d)]);
    assert(e2.drop_first().drop_first().drop_first() =~= Seq::<ChannelEvent>::empty());
    assert(claimed(m2, d));
    assert(seq![ChannelEvent::Connect(d)].drop_first() =~= Seq::<ChannelEvent>::empty());
    assert(connect_frames(after_connect(m2, d), Seq::<ChannelEvent>::empty(), d) == 0);
    assert(connect_frames(m2, seq![ChannelEvent::Connect(d)], d) == 0);
    assert(connect_frames(m1, e2.drop_first(), d) == 0);
}

/// Connecting to two distinct destinations, each send succeeding, hands out one
/// CONNECT frame for each and leaves both connected, besides those connected
/// before.
pub proof fn lemma_connect_two_destinations(m: ChannelModel, d1: Seq<char>, d2: Seq<char>)
    requires
        d1 != d2,
        !claimed(m, d1),
        !claimed(m, d2),
    ensures
        ({
            let events = seq![
                ChannelEvent::Connect(d1),
                ChannelEvent::ConnectResult(d1, true),
                ChannelEvent::Connect(d2),
                ChannelEvent::ConnectResult(d2, true),
            ];
            &&& connect_frames(m, events, d1) == 1
            &&& connect_frames(m, events, d2) == 1
            &&& run(m, events).connected.contains(d1)
            &&& run(m, events).connected.contains(d2)
            &&& run(m, events).connected == m.connected.insert(d1).insert(d2)
        }),
{
    let events = seq![
        ChannelEvent::Connect(d1),
        ChannelEvent::ConnectResult(d1, true),
        ChannelEvent::Connect(d2),
        ChannelEvent::ConnectResult(d2, true),
    ];
    let t1 = events.drop_first();
    let t2 = t1.drop_first();
    let t3 = t2.drop_first();
    let t4 = t3.drop_first();
    assert(t1 =~= seq![ChannelEvent::ConnectResult(d1, true), ChannelEvent::Connect(d2), ChannelEvent::ConnectResult(d2, true)]);
    assert(t2 =~= seq![ChannelEvent::Connect(d2), ChannelEvent::ConnectResult(d2, true)]);
    assert(t3 =~= seq![ChannelEvent::ConnectResult(d2, true)]);
    assert(t4 =~= Seq::<ChannelEvent>::empty());
    let m1 = step(m, events[0]);
    let m2 = step(m1, t1[0]);
    let m3 = step(m2, t2[0]);
    let m4 = step(m3, t3[0]);
    assert(m4.connected.contains(d1));
    assert(m4.connected.contains(d2));
    assert(run(m4, t4) == m4);
    assert(run(m3, t3) == m4);
    assert(run(m2, t2) == m4);
    assert(run(m1, t1) == m4);
    assert(run(m, events) == m4);
    assert(connect_frames(m4, t4, d1) == 0);
    assert(connect_frames(m4, t4, d2) == 0);
    assert(!emits_connect(m3, t3[0], d1));
    assert(!emits_connect(m3, t3[0], d2));
    assert(connect_frames(m3, t3, d1) == 0);
    assert(connect_frames(m3, t3, d2) == 0);
    assert(connect_frames(m2, t2, d1) == 0);
    assert(connect_frames(m2, t2, d2) == 1);
    assert(connect_frames(m1, t1, d1) == 0);
    assert(connect_frames(m1, t1, d2) == 1);
}

} // verus!
