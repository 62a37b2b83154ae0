use micromodem::probe::{Channel, Kind, Message, ProbeAction, ProbeEvent, ProbeState};

/// Runs the probe machine over the given events and gives the actions it asked for.
fn run(events: Vec<ProbeEvent>) -> Vec<ProbeAction> {
    let (mut state, action) = ProbeState::start();
    let mut actions = vec![action];
    for e in events {
        assert!(state.accepts(&e), "{state:?} does not take {e:?}");
        let (s, a) = state.step(&e);
        state = s;
        actions.push(a);
    }
    actions
}

#[test]
fn socks5_with_udp_associate() {
    let actions = run(vec![
        ProbeEvent::Connected,
        ProbeEvent::Sent,
        ProbeEvent::Received(vec![5, 0]),
        ProbeEvent::Connected,
        ProbeEvent::Sent,
        ProbeEvent::Received(vec![5, 0]),
        ProbeEvent::Sent,
        ProbeEvent::Received(vec![5, 0, 0, 1]),
        ProbeEvent::Received(vec![0; 6]),
    ]);
    assert_eq!(
        actions,
        vec![
            ProbeAction::Connect(Channel::Control),
            ProbeAction::Send(Channel::Control, Message::Greeting),
            ProbeAction::ReadExact(Channel::Control, 2),
            ProbeAction::Connect(Channel::Association),
            ProbeAction::Send(Channel::Association, Message::Greeting),
            ProbeAction::ReadExact(Channel::Association, 2),
            ProbeAction::Send(Channel::Association, Message::UdpAssociate),
            ProbeAction::ReadExact(Channel::Association, 4),
            ProbeAction::ReadExact(Channel::Association, 6),
            ProbeAction::Finish(Some(Kind::Socks5 { udp_associate: true })),
        ]
    );
}

#[test]
fn socks5_bound_address_by_type() {
    let ipv6 = run(vec![
        ProbeEvent::Connected,
        ProbeEvent::Sent,
        ProbeEvent::Received(vec![5, 0]),
        ProbeEvent::Connected,
        ProbeEvent::Sent,
        ProbeEvent::Received(vec![5, 0]),
        ProbeEvent::Sent,
        ProbeEvent::Received(vec![5, 0, 0, 4]),
    ]);
    assert_eq!(*ipv6.last().unwrap(), ProbeAction::ReadExact(Channel::Association, 18));
    let domain = run(vec![
        ProbeEvent::Connected,
        ProbeEvent::Sent,
        ProbeEvent::Received(vec![5, 0]),
        ProbeEvent::Connected,
        ProbeEvent::Sent,
        ProbeEvent::Received(vec![5, 0]),
        ProbeEvent::Sent,
        ProbeEvent::Received(vec![5, 0, 0, 3]),
        ProbeEvent::Received(vec![255]),
    ]);
    assert_eq!(domain[domain.len() - 2], ProbeAction::ReadExact(Channel::Association, 1));
    assert_eq!(*domain.last().unwrap(), ProbeAction::ReadExact(Channel::Association, 257));
    let unknown = run(vec![
        ProbeEvent::Connected,
        ProbeEvent::Sent,
        ProbeEvent::Received(vec![5, 0]),
        ProbeEvent::Connected,
        ProbeEvent::Sent,
        ProbeEvent::Received(vec![5, 0]),
        ProbeEvent::Sent,
        ProbeEvent::Received(vec![5, 0, 0, 9]),
    ]);
    assert_eq!(
        *unknown.last().unwrap(),
        ProbeAction::Finish(Some(Kind::Socks5 { udp_associate: false }))
    );
}

#[test]
fn socks5_refusing_udp_associate() {
    let actions = run(vec![
        ProbeEvent::Connected,
        ProbeEvent::Sent,
        ProbeEvent::Received(vec![5, 0]),
        ProbeEvent::Connected,
        ProbeEvent::Sent,
        ProbeEvent::Received(vec![5, 0]),
        ProbeEvent::Sent,
        ProbeEvent::Received(vec![5, 7, 0, 1]),
    ]);
    assert_eq!(
        *actions.last().unwrap(),
        ProbeAction::Finish(Some(Kind::Socks5 { udp_associate: false }))
    );
}

#[test]
fn socks5_that_wants_authentication() {
    let actions = run(vec![ProbeEvent::Connected, ProbeEvent::Sent, ProbeEvent::Received(vec![5, 2])]);
    assert_eq!(
        *actions.last().unwrap(),
        ProbeAction::Finish(Some(Kind::Socks5 { udp_associate: false }))
    );
}

#[test]
fn second_connection_failing_keeps_socks5() {
    let actions = run(vec![
        ProbeEvent::Connected,
        ProbeEvent::Sent,
        ProbeEvent::Received(vec![5, 0]),
        ProbeEvent::ConnectFailed,
    ]);
    assert_eq!(
        *actions.last().unwrap(),
        ProbeAction::Finish(Some(Kind::Socks5 { udp_associate: false }))
    );
}

#[test]
fn http_connect_proxy() {
    let actions = run(vec![
        ProbeEvent::Connected,
        ProbeEvent::Sent,
        ProbeEvent::Received(b"HT".to_vec()),
        ProbeEvent::Connected,
        ProbeEvent::Sent,
        ProbeEvent::Received(b"HTTP/1.1 200 Connection established\r\n\r\n".to_vec()),
    ]);
    assert_eq!(actions[3], ProbeAction::Connect(Channel::Http));
    assert_eq!(actions[4], ProbeAction::Send(Channel::Http, Message::HttpConnect));
    assert_eq!(actions[5], ProbeAction::ReadUpTo(Channel::Http, 256));
    assert_eq!(actions[6], ProbeAction::Finish(Some(Kind::HttpConnect)));
}

#[test]
fn unrecognised_service() {
    let refused = run(vec![
        ProbeEvent::Connected,
        ProbeEvent::Sent,
        ProbeEvent::Received(vec![5, 0xff]),
        ProbeEvent::Connected,
        ProbeEvent::Sent,
        ProbeEvent::Received(b"SSH-2.0-OpenSSH".to_vec()),
    ]);
    assert_eq!(*refused.last().unwrap(), ProbeAction::Finish(Some(Kind::OpenTcp)));
    let silent = run(vec![
        ProbeEvent::Connected,
        ProbeEvent::SendFailed,
        ProbeEvent::Connected,
        ProbeEvent::Sent,
        ProbeEvent::ReceiveFailed,
    ]);
    assert_eq!(*silent.last().unwrap(), ProbeAction::Finish(Some(Kind::OpenTcp)));
    let no_greeting_reply = run(vec![ProbeEvent::Connected, ProbeEvent::Sent, ProbeEvent::ReceiveFailed]);
    assert_eq!(*no_greeting_reply.last().unwrap(), ProbeAction::Connect(Channel::Http));
    let http_gone = run(vec![
        ProbeEvent::Connected,
        ProbeEvent::SendFailed,
        ProbeEvent::ConnectFailed,
    ]);
    assert_eq!(*http_gone.last().unwrap(), ProbeAction::Finish(Some(Kind::OpenTcp)));
}

#[test]
fn closed_port_finds_nothing() {
    let actions = run(vec![ProbeEvent::ConnectFailed]);
    assert_eq!(actions, vec![ProbeAction::Connect(Channel::Control), ProbeAction::Finish(None)]);
}

#[test]
fn events_that_do_not_follow_the_action_are_refused() {
    let (state, _) = ProbeState::start();
    assert!(!state.accepts(&ProbeEvent::Sent));
    assert!(!state.accepts(&ProbeEvent::Received(vec![5, 0])));
    let (state, _) = state.step(&ProbeEvent::Connected);
    let (state, _) = state.step(&ProbeEvent::Sent);
    assert!(!state.accepts(&ProbeEvent::Received(vec![5])));
    assert!(state.accepts(&ProbeEvent::Received(vec![5, 0])));
    assert!(state.accepts(&ProbeEvent::ReceiveFailed));
}

#[test]
fn request_bytes() {
    assert_eq!(Message::Greeting.bytes(), vec![5, 1, 0]);
    assert_eq!(Message::UdpAssociate.bytes(), vec![5, 3, 0, 1, 0, 0, 0, 0, 0, 0]);
    assert_eq!(
        Message::HttpConnect.bytes(),
        b"CONNECT example.com:443 HTTP/1.1\r\nHost: example.com:443\r\nProxy-Connection: close\r\n\r\n".to_vec()
    );
}

#[test]
fn kind_labels() {
    assert_eq!(Kind::Socks5 { udp_associate: true }.label(), "SOCKS5 (UDP ASSOCIATE accepted)");
    assert_eq!(
        Kind::Socks5 { udp_associate: false }.label(),
        "SOCKS5 (TCP only / UDP ASSOCIATE rejected)"
    );
    assert_eq!(Kind::HttpConnect.label(), "HTTP CONNECT proxy");
    assert_eq!(Kind::OpenTcp.label(), "open TCP (unrecognised protocol)");
}
