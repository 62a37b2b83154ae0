//! What a service is, told by handshakes: SOCKS5 and HTTP CONNECT as a
//! machine that goes from where the conversation stands and what the peer
//! did to the next thing to do. Whoever owns the sockets performs each action
//! and hands back what came of it.
use vstd::prelude::*;
use vstd::string::*;
use crate::ipv4::Ipv4;
use crate::text::chars_of;

verus! {

/// What a probed endpoint turned out to be.
#[derive(Clone, Copy, Debug, PartialEq, Eq, Structural)]
pub enum Kind {
    /// A SOCKS5 proxy; `udp_associate` tells whether it accepted `UDP ASSOCIATE`.
    Socks5 { udp_associate: bool },
    /// A proxy that answered `CONNECT` with an HTTP response.
    HttpConnect,
    /// An open TCP port whose protocol was not recognised.
    OpenTcp,
}

/// The text that describes each kind.
pub open spec fn kind_label(k: Kind) -> Seq<char> {
    match k {
        Kind::Socks5 { udp_associate: true } => "SOCKS5 (UDP ASSOCIATE accepted)"@,
        Kind::Socks5 { udp_associate: false } => "SOCKS5 (TCP only / UDP ASSOCIATE rejected)"@,
        Kind::HttpConnect => "HTTP CONNECT proxy"@,
        Kind::OpenTcp => "open TCP (unrecognised protocol)"@,
    }
}

impl Kind {
    /// A human-readable description of the kind.
    pub fn label(&self) -> (s: String)
        ensures
            s@ == kind_label(*self),
    {
        match self {
            Kind::Socks5 { udp_associate: true } => String::from_str(
                "SOCKS5 (UDP ASSOCIATE accepted)",
            ),
            Kind::Socks5 { udp_associate: false } => String::from_str(
                "SOCKS5 (TCP only / UDP ASSOCIATE rejected)",
            ),
            Kind::HttpConnect => String::from_str("HTTP CONNECT proxy"),
            Kind::OpenTcp => String::from_str("open TCP (unrecognised protocol)"),
        }
    }
}

/// A service found at an endpoint, with the reason the endpoint was probed.
#[derive(Debug)]
pub struct Finding {
    pub host: Ipv4,
    pub port: u16,
    pub kind: Kind,
    pub source: String,
}

/// The connections a probe uses: the one that carries the SOCKS5 greeting,
/// a second one opened while it stays open to try `UDP ASSOCIATE`, and a
/// fresh one for HTTP CONNECT after both others are closed.
#[derive(Clone, Copy, Debug, PartialEq, Eq, Structural)]
pub enum Channel {
    Control,
    Association,
    Http,
}

/// The requests a probe sends.
#[derive(Clone, Copy, Debug, PartialEq, Eq, Structural)]
pub enum Message {
    /// SOCKS5 greeting offering "no authentication".
    Greeting,
    /// SOCKS5 `UDP ASSOCIATE` for 0.0.0.0:0.
    UdpAssociate,
    /// HTTP `CONNECT example.com:443`.
    HttpConnect,
}

/// The text of the HTTP CONNECT request.
pub open spec fn http_connect_text() -> Seq<char> {
    "CONNECT example.com:443 HTTP/1.1\r\nHost: example.com:443\r\nProxy-Connection: close\r\n\r\n"@
}

/// The bytes of each request.
pub open spec fn message_bytes(m: Message) -> Seq<u8> {
    match m {
        Message::Greeting => seq![5u8, 1u8, 0u8],
        Message::UdpAssociate => seq![5u8, 3u8, 0u8, 1u8, 0u8, 0u8, 0u8, 0u8, 0u8, 0u8],
        Message::HttpConnect => http_connect_text().map_values(|c: char| c as u8),
    }
}

impl Message {
    /// The bytes to send.
    pub fn bytes(&self) -> (b: Vec<u8>)
        ensures
            b@ == message_bytes(*self),
    {
        match self {
            Message::Greeting => vec![5, 1, 0],
            Message::UdpAssociate => vec![5, 3, 0, 1, 0, 0, 0, 0, 0, 0],
            Message::HttpConnect => {
                let text = chars_of(
                    "CONNECT example.com:443 HTTP/1.1\r\nHost: example.com:443\r\nProxy-Connection: close\r\n\r\n",
                );
                let mut b: Vec<u8> = Vec::new();
                for i in 0..text.len()
                    invariant
                        text@ == http_connect_text(),
                        b@ == text@.take(i as int).map_values(|c: char| c as u8),
                {
                    b.push(text[i] as u8);
                    assert(text@.take(i + 1) == text@.take(i as int).push(text@[i as int]));
                    assert(text@.take(i + 1).map_values(|c: char| c as u8) == text@.take(
                        i as int,
                    ).map_values(|c: char| c as u8).push(text@[i as int] as u8));
                }
                assert(text@.take(text.len() as int) == text@);
                b
            },
        }
    }
}

/// The next thing to do.
#[derive(Clone, Copy, Debug, PartialEq, Eq, Structural)]
pub enum ProbeAction {
    /// Open the channel (opening `Http` closes the others first).
    Connect(Channel),
    /// Write the whole request to the channel.
    Send(Channel, Message),
    /// Read exactly this many bytes from the channel.
    ReadExact(Channel, usize),
    /// Read once, at most this many bytes, from the channel.
    ReadUpTo(Channel, usize),
    /// The probe is over: what the endpoint is, or `None` when nothing accepted
    /// the connection. All channels are closed.
    Finish(Option<Kind>),
}

/// What came of the last action.
#[derive(Debug)]
pub enum ProbeEvent {
    Connected,
    ConnectFailed,
    Sent,
    SendFailed,
    /// The bytes read: exactly the count asked for by `ReadExact`, at most the
    /// limit of `ReadUpTo`.
    Received(Vec<u8>),
    ReceiveFailed,
}

/// Where a probe stands.
#[derive(Clone, Copy, Debug, PartialEq, Eq, Structural)]
pub enum ProbeState {
    Connecting,
    Greeting,
    AwaitingMethod,
    OpeningAssociation,
    AssociationGreeting,
    AwaitingAssociationMethod,
    SendingAssociate,
    AwaitingReply,
    AwaitingDomainLength,
    AwaitingAddress { remaining: usize },
    ConnectingHttp,
    SendingConnect,
    AwaitingHttpReply,
    Finished,
}

/// The most an HTTP reply read takes.
pub open spec fn http_reply_limit() -> usize {
    256
}

/// The events that can follow the action that led to `s`.
pub open spec fn accepts(s: ProbeState, e: ProbeEvent) -> bool {
    match s {
        ProbeState::Connecting | ProbeState::OpeningAssociation | ProbeState::ConnectingHttp => (e
            is Connected || e is ConnectFailed),
        ProbeState::Greeting | ProbeState::AssociationGreeting | ProbeState::SendingAssociate
        | ProbeState::SendingConnect => (e is Sent || e is SendFailed),
        ProbeState::AwaitingMethod | ProbeState::AwaitingAssociationMethod => match e {
            ProbeEvent::Received(b) => b@.len() == 2,
            ProbeEvent::ReceiveFailed => true,
            _ => false,
        },
        ProbeState::AwaitingReply => match e {
            ProbeEvent::Received(b) => b@.len() == 4,
            ProbeEvent::ReceiveFailed => true,
            _ => false,
        },
        ProbeState::AwaitingDomainLength => match e {
            ProbeEvent::Received(b) => b@.len() == 1,
            ProbeEvent::ReceiveFailed => true,
            _ => false,
        },
        ProbeState::AwaitingAddress { remaining } => match e {
            ProbeEvent::Received(b) => b@.len() == remaining,
            ProbeEvent::ReceiveFailed => true,
            _ => false,
        },
        ProbeState::AwaitingHttpReply => match e {
            ProbeEvent::Received(b) => b@.len() <= http_reply_limit(),
            ProbeEvent::ReceiveFailed => true,
            _ => false,
        },
        ProbeState::Finished => false,
    }
}

/// The reply to an HTTP request begins with `HTTP/`.
pub open spec fn is_http_reply(b: Seq<u8>) -> bool {
    b.len() >= 5 && b[0] == 72 && b[1] == 84 && b[2] == 84 && b[3] == 80 && b[4] == 47
}

/// Give up on SOCKS5 and try HTTP CONNECT on a fresh connection.
pub open spec fn try_http() -> (ProbeState, ProbeAction) {
    (ProbeState::ConnectingHttp, ProbeAction::Connect(Channel::Http))
}

/// Done: the endpoint speaks SOCKS5.
pub open spec fn socks5_found(udp: bool) -> (ProbeState, ProbeAction) {
    (ProbeState::Finished, ProbeAction::Finish(Some(Kind::Socks5 { udp_associate: udp })))
}

/// Done with a result.
pub open spec fn finish(k: Option<Kind>) -> (ProbeState, ProbeAction) {
    (ProbeState::Finished, ProbeAction::Finish(k))
}

/// The first step of every probe.
pub open spec fn spec_start() -> (ProbeState, ProbeAction) {
    (ProbeState::Connecting, ProbeAction::Connect(Channel::Control))
}

/// The transition: from where the probe stands and what the last action
/// came to, where it stands next and what to do.
pub open spec fn spec_step(s: ProbeState, e: ProbeEvent) -> (ProbeState, ProbeAction) {
    match s {
        ProbeState::Connecting => if e is Connected {
            (ProbeState::Greeting, ProbeAction::Send(Channel::Control, Message::Greeting))
        } else {
            finish(None)
        },
        ProbeState::Greeting => if e is Sent {
            (ProbeState::AwaitingMethod, ProbeAction::ReadExact(Channel::Control, 2))
        } else {
            try_http()
        },
        ProbeState::AwaitingMethod => match e {
            ProbeEvent::Received(b) => if b@[0] != 5 || b@[1] == 0xff {
                try_http()
            } else if b@[1] != 0 {
                socks5_found(false)
            } else {
                (ProbeState::OpeningAssociation, ProbeAction::Connect(Channel::Association))
            },
            _ => try_http(),
        },
        ProbeState::OpeningAssociation => if e is Connected {
            (
                ProbeState::AssociationGreeting,
                ProbeAction::Send(Channel::Association, Message::Greeting),
            )
        } else {
            socks5_found(false)
        },
        ProbeState::AssociationGreeting => if e is Sent {
            (ProbeState::AwaitingAssociationMethod, ProbeAction::ReadExact(Channel::Association, 2))
        } else {
            socks5_found(false)
        },
        ProbeState::AwaitingAssociationMethod => match e {
            ProbeEvent::Received(b) => if b@[0] == 5 && b@[1] == 0 {
                (
                    ProbeState::SendingAssociate,
                    ProbeAction::Send(Channel::Association, Message::UdpAssociate),
                )
            } else {
                socks5_found(false)
            },
            _ => socks5_found(false),
        },
        ProbeState::SendingAssociate => if e is Sent {
            (ProbeState::AwaitingReply, ProbeAction::ReadExact(Channel::Association, 4))
        } else {
            socks5_found(false)
        },
        ProbeState::AwaitingReply => match e {
            ProbeEvent::Received(h) => if h@[0] != 5 || h@[1] != 0 {
                socks5_found(false)
            } else if h@[3] == 1 {
                (
                    ProbeState::AwaitingAddress { remaining: 6 },
                    ProbeAction::ReadExact(Channel::Association, 6),
                )
            } else if h@[3] == 4 {
                (
                    ProbeState::AwaitingAddress { remaining: 18 },
                    ProbeAction::ReadExact(Channel::Association, 18),
                )
            } else if h@[3] == 3 {
                (ProbeState::AwaitingDomainLength, ProbeAction::ReadExact(Channel::Association, 1))
            } else {
                socks5_found(false)
            },
            _ => socks5_found(false),
        },
        ProbeState::AwaitingDomainLength => match e {
            ProbeEvent::Received(n) => (
                ProbeState::AwaitingAddress { remaining: (n@[0] + 2) as usize },
                ProbeAction::ReadExact(Channel::Association, (n@[0] + 2) as usize),
            ),
            _ => socks5_found(false),
        },
        ProbeState::AwaitingAddress { .. } => if e is Received {
            socks5_found(true)
        } else {
            socks5_found(false)
        },
        ProbeState::ConnectingHttp => if e is Connected {
            (ProbeState::SendingConnect, ProbeAction::Send(Channel::Http, Message::HttpConnect))
        } else {
            finish(Some(Kind::OpenTcp))
        },
        ProbeState::SendingConnect => if e is Sent {
            (ProbeState::AwaitingHttpReply, ProbeAction::ReadUpTo(Channel::Http, 256))
        } else {
            finish(Some(Kind::OpenTcp))
        },
        ProbeState::AwaitingHttpReply => match e {
            ProbeEvent::Received(b) => if is_http_reply(b@) {
                finish(Some(Kind::HttpConnect))
            } else {
                finish(Some(Kind::OpenTcp))
            },
            _ => finish(Some(Kind::OpenTcp)),
        },
        ProbeState::Finished => finish(None),
    }
}

/// How many steps at most remain from each state.
pub open spec fn rank(s: ProbeState) -> nat {
    match s {
        ProbeState::Connecting => 13,
        ProbeState::Greeting => 12,
        ProbeState::AwaitingMethod => 11,
        ProbeState::OpeningAssociation => 10,
        ProbeState::AssociationGreeting => 9,
        ProbeState::AwaitingAssociationMethod => 8,
        ProbeState::SendingAssociate => 7,
        ProbeState::AwaitingReply => 6,
        ProbeState::AwaitingDomainLength => 5,
        ProbeState::AwaitingAddress { .. } => 4,
        ProbeState::ConnectingHttp => 3,
        ProbeState::SendingConnect => 2,
        ProbeState::AwaitingHttpReply => 1,
        ProbeState::Finished => 0,
    }
}

impl ProbeState {
    /// The state and action that every probe begins with: connect.
    pub fn start() -> (r: (ProbeState, ProbeAction))
        ensures
            r == spec_start(),
    {
        (ProbeState::Connecting, ProbeAction::Connect(Channel::Control))
    }

    /// Whether `event` can follow the action that led here.
    pub fn accepts(&self, event: &ProbeEvent) -> (r: bool)
        ensures
            r == accepts(*self, *event),
    {
        match self {
            ProbeState::Connecting | ProbeState::OpeningAssociation | ProbeState::ConnectingHttp => {
                match event {
                    ProbeEvent::Connected | ProbeEvent::ConnectFailed => true,
                    _ => false,
                }
            },
            ProbeState::Greeting | ProbeState::AssociationGreeting | ProbeState::SendingAssociate
            | ProbeState::SendingConnect => match event {
                ProbeEvent::Sent | ProbeEvent::SendFailed => true,
                _ => false,
            },
            ProbeState::AwaitingMethod | ProbeState::AwaitingAssociationMethod => match event {
                ProbeEvent::Received(b) => b.len() == 2,
                ProbeEvent::ReceiveFailed => true,
                _ => false,
            },
            ProbeState::AwaitingReply => match event {
                ProbeEvent::Received(b) => b.len() == 4,
                ProbeEvent::ReceiveFailed => true,
                _ => false,
            },
            ProbeState::AwaitingDomainLength => match event {
                ProbeEvent::Received(b) => b.len() == 1,
                ProbeEvent::ReceiveFailed => true,
                _ => false,
            },
            ProbeState::AwaitingAddress { remaining } => match event {
                ProbeEvent::Received(b) => b.len() == *remaining,
                ProbeEvent::ReceiveFailed => true,
                _ => false,
            },
            ProbeState::AwaitingHttpReply => match event {
                ProbeEvent::Received(b) => b.len() <= 256,
                ProbeEvent::ReceiveFailed => true,
                _ => false,
            },
            ProbeState::Finished => false,
        }
    }

    /// Takes the probe one step: where it stands next and what to do.
    pub fn step(&self, event: &ProbeEvent) -> (r: (ProbeState, ProbeAction))
        requires
            accepts(*self, *event),
        ensures
            r == spec_step(*self, *event),
            rank(r.0) < rank(*self),
    {
        match self {
            ProbeState::Connecting => match event {
                ProbeEvent::Connected => (
                    ProbeState::Greeting,
                    ProbeAction::Send(Channel::Control, Message::Greeting),
                ),
                _ => (ProbeState::Finished, ProbeAction::Finish(None)),
            },
            ProbeState::Greeting => match event {
                ProbeEvent::Sent => (
                    ProbeState::AwaitingMethod,
                    ProbeAction::ReadExact(Channel::Control, 2),
                ),
                _ => (ProbeState::ConnectingHttp, ProbeAction::Connect(Channel::Http)),
            },
            ProbeState::AwaitingMethod => match event {
                ProbeEvent::Received(b) => {
                    if b[0] != 5 || b[1] == 0xff {
                        (ProbeState::ConnectingHttp, ProbeAction::Connect(Channel::Http))
                    } else if b[1] != 0 {
                        Self::socks5(false)
                    } else {
                        (ProbeState::OpeningAssociation, ProbeAction::Connect(Channel::Association))
                    }
                },
                _ => (ProbeState::ConnectingHttp, ProbeAction::Connect(Channel::Http)),
            },
            ProbeState::OpeningAssociation => match event {
                ProbeEvent::Connected => (
                    ProbeState::AssociationGreeting,
                    ProbeAction::Send(Channel::Association, Message::Greeting),
                ),
                _ => Self::socks5(false),
            },
            ProbeState::AssociationGreeting => match event {
                ProbeEvent::Sent => (
                    ProbeState::AwaitingAssociationMethod,
                    ProbeAction::ReadExact(Channel::Association, 2),
                ),
                _ => Self::socks5(false),
            },
            ProbeState::AwaitingAssociationMethod => match event {
                ProbeEvent::Received(b) => {
                    if b[0] == 5 && b[1] == 0 {
                        (
                            ProbeState::SendingAssociate,
                            ProbeAction::Send(Channel::Association, Message::UdpAssociate),
                        )
                    } else {
                        Self::socks5(false)
                    }
                },
                _ => Self::socks5(false),
            },
            ProbeState::SendingAssociate => match event {
                ProbeEvent::Sent => (
                    ProbeState::AwaitingReply,
                    ProbeAction::ReadExact(Channel::Association, 4),
                ),
                _ => Self::socks5(false),
            },
            ProbeState::AwaitingReply => match event {
                ProbeEvent::Received(h) => {
                    if h[0] != 5 || h[1] != 0 {
                        Self::socks5(false)
                    } else if h[3] == 1 {
                        (
                            ProbeState::AwaitingAddress { remaining: 6 },
                            ProbeAction::ReadExact(Channel::Association, 6),
                        )
                    } else if h[3] == 4 {
                        (
                            ProbeState::AwaitingAddress { remaining: 18 },
                            ProbeAction::ReadExact(Channel::Association, 18),
                        )
                    } else if h[3] == 3 {
                        (
                            ProbeState::AwaitingDomainLength,
                            ProbeAction::ReadExact(Channel::Association, 1),
                        )
                    } else {
                        Self::socks5(false)
                    }
                },
                _ => Self::socks5(false),
            },
            ProbeState::AwaitingDomainLength => match event {
                ProbeEvent::Received(n) => {
                    let remaining = n[0] as usize + 2;
                    (
                        ProbeState::AwaitingAddress { remaining },
                        ProbeAction::ReadExact(Channel::Association, remaining),
                    )
                },
                _ => Self::socks5(false),
            },
            ProbeState::AwaitingAddress { .. } => match event {
                ProbeEvent::Received(_) => Self::socks5(true),
                _ => Self::socks5(false),
            },
            ProbeState::ConnectingHttp => match event {
                ProbeEvent::Connected => (
                    ProbeState::SendingConnect,
                    ProbeAction::Send(Channel::Http, Message::HttpConnect),
                ),
                _ => (ProbeState::Finished, ProbeAction::Finish(Some(Kind::OpenTcp))),
            },
            ProbeState::SendingConnect => match event {
                ProbeEvent::Sent => (
                    ProbeState::AwaitingHttpReply,
                    ProbeAction::ReadUpTo(Channel::Http, 256),
                ),
                _ => (ProbeState::Finished, ProbeAction::Finish(Some(Kind::OpenTcp))),
            },
            ProbeState::AwaitingHttpReply => match event {
                ProbeEvent::Received(b) => {
                    if b.len() >= 5 && b[0] == 72 && b[1] == 84 && b[2] == 84 && b[3] == 80 && b[4]
                        == 47 {
                        (ProbeState::Finished, ProbeAction::Finish(Some(Kind::HttpConnect)))
                    } else {
                        (ProbeState::Finished, ProbeAction::Finish(Some(Kind::OpenTcp)))
                    }
                },
                _ => (ProbeState::Finished, ProbeAction::Finish(Some(Kind::OpenTcp))),
            },
            ProbeState::Finished => (ProbeState::Finished, ProbeAction::Finish(None)),
        }
    }

    fn socks5(udp: bool) -> (r: (ProbeState, ProbeAction))
        ensures
            r == socks5_found(udp),
    {
        (ProbeState::Finished, ProbeAction::Finish(Some(Kind::Socks5 { udp_associate: udp })))
    }
}

/// The states after the server has answered the SOCKS5 greeting with
/// version 5 and "no authentication".
pub open spec fn socks5_confirmed(s: ProbeState) -> bool {
    ||| s is OpeningAssociation
    ||| s is AssociationGreeting
    ||| s is AwaitingAssociationMethod
    ||| s is SendingAssociate
    ||| s is AwaitingReply
    ||| s is AwaitingDomainLength
    ||| s is AwaitingAddress
}

/// The states after the server has accepted `UDP ASSOCIATE`.
pub open spec fn associate_accepted(s: ProbeState) -> bool {
    s is AwaitingDomainLength || s is AwaitingAddress
}

pub open spec fn is_socks5_result(a: ProbeAction) -> bool {
    a matches ProbeAction::Finish(Some(Kind::Socks5 { .. }))
}

/// Law: a probe performs handshakes and does not go by the port. It calls an
/// endpoint SOCKS5 only after a greeting reply of version 5 that did not
/// refuse every method, and once the server has accepted the greeting with
/// "no authentication", the result is SOCKS5 whatever follows.
pub proof fn lemma_socks5_result(s: ProbeState, e: ProbeEvent)
    requires
        accepts(s, e),
    ensures
        is_socks5_result(spec_step(s, e).1) ==> socks5_confirmed(s) || (s is AwaitingMethod && (
        e matches ProbeEvent::Received(b) && b@[0] == 5 && b@[1] != 0xff)),
        socks5_confirmed(spec_step(s, e).0) && !socks5_confirmed(s) ==> (s is AwaitingMethod && (
        e matches ProbeEvent::Received(b) && b@[0] == 5 && b@[1] == 0)),
        socks5_confirmed(s) ==> socks5_confirmed(spec_step(s, e).0) || is_socks5_result(
            spec_step(s, e).1,
        ),
{
}

/// Law: a probe reports `UDP ASSOCIATE accepted` only when the server
/// replied to `UDP ASSOCIATE` with version 5 and success and then sent the
/// whole bound address.
pub proof fn lemma_udp_associate_result(s: ProbeState, e: ProbeEvent)
    requires
        accepts(s, e),
    ensures
        spec_step(s, e).1 == ProbeAction::Finish(Some(Kind::Socks5 { udp_associate: true })) ==> (
        s is AwaitingAddress && e is Received),
        associate_accepted(spec_step(s, e).0) && !associate_accepted(s) ==> (s is AwaitingReply
            && (e matches ProbeEvent::Received(h) && h@[0] == 5 && h@[1] == 0)),
{
}

/// Law: a probe reports HTTP CONNECT only when the reply to its `CONNECT`
/// began with `HTTP/`.
pub proof fn lemma_http_connect_result(s: ProbeState, e: ProbeEvent)
    requires
        accepts(s, e),
    ensures
        spec_step(s, e).1 == ProbeAction::Finish(Some(Kind::HttpConnect)) ==> (s is AwaitingHttpReply
            && (e matches ProbeEvent::Received(b) && is_http_reply(b@))),
{
}

/// Law: any reply to the `CONNECT` request that begins with the bytes
/// `HTTP/` marks an HTTP CONNECT proxy, whatever its status (an answer that
/// asks for credentials included); any other reply, or none, leaves the
/// endpoint an open TCP port.
pub proof fn lemma_http_reply_decides(reply: Seq<u8>, e: ProbeEvent)
    requires
        accepts(ProbeState::AwaitingHttpReply, e),
        e matches ProbeEvent::Received(b) ==> b@ == reply,
    ensures
        (e is Received && reply.len() >= 5 && reply.take(5) == seq![72u8, 84u8, 84u8, 80u8, 47u8])
            ==> spec_step(ProbeState::AwaitingHttpReply, e).1 == ProbeAction::Finish(
            Some(Kind::HttpConnect),
        ),
        !(e is Received && reply.len() >= 5 && reply.take(5) == seq![72u8, 84u8, 84u8, 80u8, 47u8])
            ==> spec_step(ProbeState::AwaitingHttpReply, e).1 == ProbeAction::Finish(
            Some(Kind::OpenTcp),
        ),
{
    if reply.len() >= 5 {
        assert(reply.take(5)[0] == reply[0]);
        assert(reply.take(5)[1] == reply[1]);
        assert(reply.take(5)[2] == reply[2]);
        assert(reply.take(5)[3] == reply[3]);
        assert(reply.take(5)[4] == reply[4]);
        if is_http_reply(reply) {
            assert(reply.take(5) =~= seq![72u8, 84u8, 84u8, 80u8, 47u8]);
        }
    }
}

/// Law: a probe finds nothing only when the first connection fails; once a
/// connection has been made, every probe ends with a finding.
pub proof fn lemma_nothing_found(s: ProbeState, e: ProbeEvent)
    requires
        accepts(s, e),
    ensures
        spec_step(s, e).1 == ProbeAction::Finish(None) <==> (s is Connecting && e is ConnectFailed),
{
}

/// Law: each step brings the probe closer to its end, so that every probe
/// finishes after finitely many steps, and an action other than `Finish`
/// always leaves it in a state that accepts what can come of that action.
pub proof fn lemma_probe_progress(s: ProbeState, e: ProbeEvent)
    requires
        accepts(s, e),
    ensures
        rank(spec_step(s, e).0) < rank(s),
        spec_step(s, e).1 is Finish <==> spec_step(s, e).0 is Finished,
{
}

} // verus!
