//! The streams of all sessions: what each relay message asks of the server, and
//! what the client is told of what came of it.

use vstd::prelude::*;

use crate::relay::{Message, RelayMessage};
use crate::table::{Key, Table};
use crate::text::{
    begins_str, chars_of, ends_str, ends_with, joined, replace_all, replaced, starts_with, string_of,
};

verus! {

/// A stream of a session.
#[derive(Clone, Copy, Debug, PartialEq, Eq, Structural)]
pub struct StreamId {
    pub session: u32,
    pub stream: u16,
}

impl Key for StreamId {
    type Id = StreamId;

    open spec fn id(&self) -> StreamId {
        *self
    }

    fn same(&self, other: &Self) -> (r: bool) {
        *self == *other
    }

    fn duplicate(&self) -> (r: Self) {
        *self
    }
}

/// What a stream is connected to.
#[derive(Clone, Copy, Debug, PartialEq, Eq, Structural)]
pub enum RemoteKind {
    /// A TCP connection.
    Tcp,
    /// A UDP socket.
    Udp,
}

/// What the server is to do for a stream.
pub enum StreamAction {
    /// Open a TCP connection to the target.
    Connect(String),
    /// Bind a UDP socket.
    BindUdp,
    /// Write to the TCP connection.
    Write(Vec<u8>),
    /// Send a UDP datagram to the target.
    SendUdp(String, Vec<u8>),
    /// Resolve a DNS query that was meant for the target.
    AskDns(String, Vec<u8>),
    /// Stop what runs for the stream.
    Cancel,
    /// Say that a message was for no known stream.
    UnknownStream,
    /// Say that the client reports an error.
    ClientError(String),
    /// Tell the client.
    Reply(RelayMessage),
    Nothing,
}

/// What the server is to do for a stream.
#[verifier::ext_equal]
pub enum Deed {
    Connect(Seq<char>),
    BindUdp,
    Write(Seq<u8>),
    SendUdp(Seq<char>, Seq<u8>),
    AskDns(Seq<char>, Seq<u8>),
    Cancel,
    UnknownStream,
    ClientError(Seq<char>),
    Reply(Message),
    Nothing,
}

impl View for StreamAction {
    type V = Deed;

    open spec fn view(&self) -> Deed {
        match self {
            StreamAction::Connect(t) => Deed::Connect(t@),
            StreamAction::BindUdp => Deed::BindUdp,
            StreamAction::Write(d) => Deed::Write(d@),
            StreamAction::SendUdp(t, d) => Deed::SendUdp(t@, d@),
            StreamAction::AskDns(t, d) => Deed::AskDns(t@, d@),
            StreamAction::Cancel => Deed::Cancel,
            StreamAction::UnknownStream => Deed::UnknownStream,
            StreamAction::ClientError(t) => Deed::ClientError(t@),
            StreamAction::Reply(m) => Deed::Reply(m@),
            StreamAction::Nothing => Deed::Nothing,
        }
    }
}

/// The address under which clients reach the server itself is its loopback
/// address.
pub open spec fn reachable(target: Seq<char>) -> Seq<char> {
    if starts_with(target, "10.1.0.1:"@) {
        replace_all(target, "10.1.0.1:"@, "127.0.0.1:"@)
    } else {
        target
    }
}

/// The address under which clients reach the server itself is its loopback
/// address.
pub fn reachable_target(target: &str) -> (r: String)
    ensures
        r@ == reachable(target@),
{
    let t = chars_of(target);
    let from = chars_of("10.1.0.1:");
    let to = chars_of("127.0.0.1:");
    proof {
        reveal_strlit("10.1.0.1:");
    }
    if begins_str(&t, "10.1.0.1:") {
        string_of(&replaced(&t, &from, &to))
    } else {
        string_of(&t)
    }
}

/// What a message of the client on stream `id` does: the streams after it, and
/// what is to be done. Queries to port 53 are resolved by the server itself where
/// `intercept`.
pub open spec fn relayed(streams: Map<StreamId, RemoteKind>, id: StreamId, m: Message, intercept: bool) -> (
    Map<StreamId, RemoteKind>,
    Deed,
) {
    let known = streams.contains_key(id);
    match m {
        Message::Connect(target) => (streams, Deed::Connect(reachable(target))),
        Message::Data(d) => (
            streams,
            if !known {
                Deed::UnknownStream
            } else if streams[id] is Tcp {
                Deed::Write(d)
            } else {
                Deed::Nothing
            },
        ),
        Message::Close => (
            streams.remove(id),
            if known {
                Deed::Cancel
            } else {
                Deed::Nothing
            },
        ),
        Message::Error(e) => (streams, Deed::ClientError(e)),
        Message::Ping(t) => (streams, Deed::Reply(Message::Pong(t))),
        Message::UdpAssociate => (streams, Deed::BindUdp),
        Message::UdpData(target, d) => (
            streams,
            if !known {
                Deed::UnknownStream
            } else if ends_with(target, ":53"@) && intercept {
                Deed::AskDns(target, d)
            } else if streams[id] is Udp {
                Deed::SendUdp(reachable(target), d)
            } else {
                Deed::Nothing
            },
        ),
        Message::KeepAlive | Message::ConnectOk | Message::Pong(_) => (streams, Deed::Nothing),
    }
}

/// The streams of all sessions.
pub struct Streams {
    remotes: Table<StreamId, RemoteKind>,
}

impl View for Streams {
    type V = Map<StreamId, RemoteKind>;

    closed spec fn view(&self) -> Map<StreamId, RemoteKind> {
        self.remotes@
    }
}

impl Streams {
    pub closed spec fn wf(&self) -> bool {
        self.remotes.wf()
    }

    pub fn new() -> (r: Self)
        ensures
            r.wf(),
            r@ == Map::<StreamId, RemoteKind>::empty(),
    {
        Streams { remotes: Table::new() }
    }

    /// A message of the client on stream `id`.
    pub fn on_message(&mut self, id: StreamId, message: RelayMessage, intercept: bool) -> (r: StreamAction)
        requires
            old(self).wf(),
        ensures
            final(self).wf(),
            (final(self)@, r@) == relayed(old(self)@, id, message@, intercept),
    {
        let kind = match self.remotes.get(&id) {
            Some(k) => Some(*k),
            None => None,
        };
        match message {
            RelayMessage::Connect(target) => StreamAction::Connect(reachable_target(&target)),
            RelayMessage::Data(d) => match kind {
                None => StreamAction::UnknownStream,
                Some(RemoteKind::Tcp) => StreamAction::Write(d),
                Some(RemoteKind::Udp) => StreamAction::Nothing,
            },
            RelayMessage::Close => match self.remotes.remove(&id) {
                Some(_) => StreamAction::Cancel,
                None => StreamAction::Nothing,
            },
            RelayMessage::Error(e) => StreamAction::ClientError(e),
            RelayMessage::Ping(t) => StreamAction::Reply(RelayMessage::Pong(t)),
            RelayMessage::UdpAssociate => StreamAction::BindUdp,
            RelayMessage::UdpData(target, d) => {
                let t = chars_of(&target);
                let dns = ends_str(&t, ":53");
                match kind {
                    None => StreamAction::UnknownStream,
                    Some(k) => if dns && intercept {
                        StreamAction::AskDns(target, d)
                    } else {
                        match k {
                            RemoteKind::Udp => StreamAction::SendUdp(reachable_target(&target), d),
                            RemoteKind::Tcp => StreamAction::Nothing,
                        }
                    },
                }
            },
            RelayMessage::KeepAlive | RelayMessage::ConnectOk | RelayMessage::Pong(_) => StreamAction::Nothing,
        }
    }

    /// The TCP connection of a stream is open, or it failed for a reason. The
    /// client is told.
    pub fn on_connected(&mut self, id: StreamId, result: Result<(), String>) -> (r: RelayMessage)
        requires
            old(self).wf(),
        ensures
            final(self).wf(),
            match result {
                Ok(_) => final(self)@ == old(self)@.insert(id, RemoteKind::Tcp) && r@ == Message::ConnectOk,
                Err(e) => final(self)@ == old(self)@ && r@ == Message::Error("connect failed: "@ + e@),
            },
    {
        match result {
            Ok(_) => {
                let _ = self.remotes.insert(id, RemoteKind::Tcp);
                RelayMessage::ConnectOk
            },
            Err(e) => RelayMessage::Error(joined("connect failed: ", &e)),
        }
    }

    /// A UDP socket is bound for a stream. The client is told.
    pub fn on_udp_bound(&mut self, id: StreamId) -> (r: RelayMessage)
        requires
            old(self).wf(),
        ensures
            final(self).wf(),
            final(self)@ == old(self)@.insert(id, RemoteKind::Udp),
            r@ == Message::ConnectOk,
    {
        let _ = self.remotes.insert(id, RemoteKind::Udp);
        RelayMessage::ConnectOk
    }

    /// Data came from the target of a stream; none at all means that it closed,
    /// and then what runs for a known stream is to be stopped. The client is
    /// told.
    pub fn on_stream_data(&mut self, id: StreamId, data: Vec<u8>) -> (r: (RelayMessage, bool))
        requires
            old(self).wf(),
        ensures
            final(self).wf(),
            if data@.len() == 0 {
                &&& final(self)@ == old(self)@.remove(id)
                &&& r.0@ == Message::Close
                &&& r.1 == old(self)@.contains_key(id)
            } else {
                &&& final(self)@ == old(self)@
                &&& r.0@ == Message::Data(data@)
                &&& !r.1
            },
    {
        if data.len() == 0 {
            let cancel = match self.remotes.remove(&id) {
                Some(_) => true,
                None => false,
            };
            (RelayMessage::Close, cancel)
        } else {
            (RelayMessage::Data(data), false)
        }
    }

    /// A session ended: its streams are forgotten, and what runs for them is to
    /// be stopped.
    pub fn on_session_dropped(&mut self, session: u32) -> (r: Vec<StreamId>)
        requires
            old(self).wf(),
        ensures
            final(self).wf(),
            final(self)@ == old(self)@.remove_keys(of_session(old(self)@, session)),
            r@.no_duplicates(),
            r@.to_set() == of_session(old(self)@, session),
    {
        let ghost start = self@;
        let mut out: Vec<StreamId> = Vec::new();
        let mut i: usize = 0;
        assert(out@.to_set() =~= Set::<StreamId>::empty());
        while i < self.remotes.len()
            invariant
                self.remotes.wf(),
                i <= self.remotes.pairs().len(),
                out@.no_duplicates(),
                forall|k: StreamId| #[trigger] out@.contains(k) ==> start.contains_key(k) && k.session == session,
                forall|k: StreamId| #[trigger] self@.contains_key(k) <==> start.contains_key(k) && !out@.contains(k),
                forall|k: StreamId| #[trigger] self@.contains_key(k) ==> self@[k] == start[k],
                forall|j: int| 0 <= j < i ==> (#[trigger] self.remotes.pairs()[j]).0.session != session,
            decreases self.remotes.pairs().len() - i,
        {
            let id: StreamId = *self.remotes.key_at(i);
            if id.session == session {
                let ghost before = self@;
                let ghost out0 = out@;
                let ghost p0 = self.remotes.pairs();
                assert(before.contains_key(id));
                let _ = self.remotes.remove_at(i);
                out.push(id);
                assert forall|k: StreamId| #[trigger] out@.contains(k) <==> out0.contains(k) || k == id by {
                    if out0.contains(k) {
                        let m = choose|m: int| 0 <= m < out0.len() && out0[m] == k;
                        assert(out@[m] == k);
                    }
                    if k == id {
                        assert(out@[out@.len() - 1] == k);
                    }
                }
                assert forall|j: int| 0 <= j < i implies (#[trigger] self.remotes.pairs()[j]).0.session != session by {
                    assert(self.remotes.pairs()[j] == p0[j]);
                }
            } else {
                i += 1;
            }
        }
        proof {
            crate::table::lemma_map_of(self.remotes.pairs());
            crate::table::lemma_table_view(self.remotes);
            let gone = of_session(start, session);
            assert forall|k: StreamId| out@.to_set().contains(k) == gone.contains(k) by {
                if gone.contains(k) && !out@.contains(k) {
                    assert(self@.contains_key(k));
                    let j = choose|j: int|
                        0 <= j < self.remotes.pairs().len() && (#[trigger] self.remotes.pairs()[j]).0 == k;
                    assert(self.remotes.pairs()[j].0.session != session);
                }
            }
            assert(out@.to_set() =~= gone);
            assert(self@ =~= start.remove_keys(gone));
        }
        out
    }
}

/// The streams of a session.
pub open spec fn of_session(streams: Map<StreamId, RemoteKind>, session: u32) -> Set<StreamId> {
    Set::new(|k: StreamId| streams.contains_key(k) && k.session == session)
}

/// A stream that the client closed gets nothing any more.
pub proof fn closed_streams_get_nothing(
    streams: Map<StreamId, RemoteKind>,
    id: StreamId,
    data: Seq<u8>,
    intercept: bool,
)
    ensures
        relayed(relayed(streams, id, Message::Close, intercept).0, id, Message::Data(data), intercept).1
            == Deed::UnknownStream,
{
}

/// A message touches no stream but its own.
pub proof fn messages_touch_their_own_stream_only(
    streams: Map<StreamId, RemoteKind>,
    id: StreamId,
    m: Message,
    intercept: bool,
    other: StreamId,
)
    requires
        other != id,
    ensures
        ({
            let after = relayed(streams, id, m, intercept).0;
            &&& after.contains_key(other) == streams.contains_key(other)
            &&& streams.contains_key(other) ==> after[other] == streams[other]
        }),
{
}

/// What the messages of a client are for: to connect, to have data written to the connection of
/// the stream, or sent as a datagram from the socket of the stream, to close the stream, and to
/// be answered with the time that was sent. Data for a stream that there is not is refused.
pub proof fn messages_do_their_work(
    streams: Map<StreamId, RemoteKind>,
    id: StreamId,
    target: Seq<char>,
    data: Seq<u8>,
    time: u64,
    intercept: bool,
)
    ensures
        relayed(streams, id, Message::Ping(time), intercept) == (streams, Deed::Reply(Message::Pong(time))),
        relayed(streams, id, Message::UdpAssociate, intercept) == (streams, Deed::BindUdp),
        !starts_with(target, "10.1.0.1:"@) ==> relayed(streams, id, Message::Connect(target), intercept) == (
            streams,
            Deed::Connect(target),
        ),
        streams.contains_key(id) && streams[id] is Tcp ==> relayed(streams, id, Message::Data(data), intercept) == (
            streams,
            Deed::Write(data),
        ),
        streams.contains_key(id) && streams[id] is Udp && !starts_with(target, "10.1.0.1:"@) && !(ends_with(target, ":53"@)
            && intercept) ==> relayed(streams, id, Message::UdpData(target, data), intercept) == (
            streams,
            Deed::SendUdp(target, data),
        ),
        streams.contains_key(id) && ends_with(target, ":53"@) && intercept ==> relayed(
            streams,
            id,
            Message::UdpData(target, data),
            intercept,
        ) == (streams, Deed::AskDns(target, data)),
        streams.contains_key(id) ==> relayed(streams, id, Message::Close, intercept).1 == Deed::Cancel,
        !relayed(streams, id, Message::Close, intercept).0.contains_key(id),
        !streams.contains_key(id) ==> relayed(streams, id, Message::Data(data), intercept) == (
            streams,
            Deed::UnknownStream,
        ),
        !streams.contains_key(id) ==> relayed(streams, id, Message::UdpData(target, data), intercept) == (
            streams,
            Deed::UnknownStream,
        ),
        relayed(streams, id, Message::KeepAlive, intercept) == (streams, Deed::Nothing),
{
}

/// The server's own address in the tunnel stands for the server itself, with the same port.
pub proof fn the_tunnels_address_is_the_server(port: Seq<char>)
    requires
        replace_all("10.1.0.1:"@ + port, "10.1.0.1:"@, "127.0.0.1:"@) == "127.0.0.1:"@ + port,
    ensures
        reachable("10.1.0.1:"@ + port) == "127.0.0.1:"@ + port,
{
    let t = "10.1.0.1:"@ + port;
    assert(t.subrange(0, "10.1.0.1:"@.len() as int) =~= "10.1.0.1:"@);
}

} // verus!
