use game_logic::client::{
    connect_step, first_connect_step, local_address, next_state, send_batch_failed, ConnectInfo, ConnectStep,
    NetEvent, State,
};

fn local_addresses(info: &ConnectInfo) -> Vec<String> {
    (0..info.port_try_amount).map(|i| local_address(info, i)).collect()
}

#[test]
fn connection_state_transitions() {
    assert_eq!(next_state(State::Off, NetEvent::Play), State::Connect);
    assert_eq!(next_state(State::Connect, NetEvent::Connected), State::On);
    assert_eq!(next_state(State::Connect, NetEvent::ConnectFailed), State::Off);
    assert_eq!(next_state(State::On, NetEvent::ReceiveFailed), State::Off);
    assert_eq!(next_state(State::On, NetEvent::SendFailed), State::Off);
}

#[test]
fn blocked_read_keeps_the_state() {
    assert_eq!(next_state(State::On, NetEvent::ReceiveBlocked), State::On);
    assert_eq!(next_state(State::Connect, NetEvent::ReceiveBlocked), State::Connect);
    assert_eq!(next_state(State::Off, NetEvent::ReceiveBlocked), State::Off);
}

#[test]
fn only_the_last_send_of_a_batch_counts() {
    assert!(!send_batch_failed(&vec![]));
    assert!(send_batch_failed(&vec![true]));
    assert!(!send_batch_failed(&vec![true, false]));
    assert!(send_batch_failed(&vec![false, false, true]));
    assert!(!send_batch_failed(&vec![false]));
}

#[test]
fn local_addresses_cover_the_port_range() {
    let info = ConnectInfo {
        remote_addr: "127.0.0.1:8083".to_string(),
        base_addr: "127.0.0.1:".to_string(),
        base_local_port: 34255,
        port_try_amount: 3,
    };
    assert_eq!(
        local_addresses(&info),
        vec!["127.0.0.1:34255".to_string(), "127.0.0.1:34256".to_string(), "127.0.0.1:34257".to_string()]
    );
}

#[test]
fn local_addresses_write_small_and_round_ports() {
    let info = ConnectInfo {
        remote_addr: String::new(),
        base_addr: "h:".to_string(),
        base_local_port: 8,
        port_try_amount: 4,
    };
    assert_eq!(local_addresses(&info), vec!["h:8", "h:9", "h:10", "h:11"]);
    let info = ConnectInfo { remote_addr: String::new(), base_addr: String::new(), base_local_port: 0, port_try_amount: 1 };
    assert_eq!(local_addresses(&info), vec!["0"]);
    let info = ConnectInfo { remote_addr: String::new(), base_addr: String::new(), base_local_port: 100, port_try_amount: 0 };
    assert!(local_addresses(&info).is_empty());
}

#[test]
fn local_addresses_are_all_different() {
    let info = ConnectInfo {
        remote_addr: String::new(),
        base_addr: "10.0.0.1:".to_string(),
        base_local_port: 95,
        port_try_amount: 10,
    };
    let addrs = local_addresses(&info);
    for i in 0..addrs.len() {
        for j in 0..addrs.len() {
            if i != j {
                assert_ne!(addrs[i], addrs[j]);
            }
        }
    }
    assert_eq!(addrs[4], "10.0.0.1:99");
    assert_eq!(addrs[5], "10.0.0.1:100");
}

#[test]
fn only_a_connection_turns_the_client_on() {
    let events = [
        NetEvent::Play,
        NetEvent::Connected,
        NetEvent::ConnectFailed,
        NetEvent::ReceiveBlocked,
        NetEvent::ReceiveFailed,
        NetEvent::SendFailed,
    ];
    for &s in &[State::Connect, State::Off] {
        for &e in &events {
            if next_state(s, e) == State::On {
                assert_eq!(e, NetEvent::Connected);
            }
        }
    }
}

#[test]
fn the_last_port_may_be_the_largest_number() {
    let info = ConnectInfo { remote_addr: String::new(), base_addr: "a:".to_string(), base_local_port: usize::MAX, port_try_amount: 1 };
    assert_eq!(local_address(&info, 0), format!("a:{}", usize::MAX));
    assert_eq!(first_connect_step(&info), ConnectStep::Try(0));
    assert_eq!(connect_step(&info, 0, false), ConnectStep::Failed);
}

#[test]
fn connecting_stops_at_the_first_bound_port() {
    let info = ConnectInfo { remote_addr: String::new(), base_addr: String::new(), base_local_port: 7, port_try_amount: usize::MAX };
    let ok = [false, false, true, true];
    let mut tried = Vec::new();
    let mut step = first_connect_step(&info);
    while let ConnectStep::Try(i) = step {
        tried.push(local_address(&info, i));
        step = connect_step(&info, i, ok[i]);
    }
    assert_eq!(step, ConnectStep::Connected);
    assert_eq!(tried, vec!["7", "8", "9"]);
    assert_eq!(next_state(State::Connect, NetEvent::Connected), State::On);
}

#[test]
fn connecting_tries_every_port_once_then_fails() {
    let info = ConnectInfo { remote_addr: String::new(), base_addr: "h:".to_string(), base_local_port: 34255, port_try_amount: 3 };
    let mut tried = Vec::new();
    let mut step = first_connect_step(&info);
    while let ConnectStep::Try(i) = step {
        tried.push(local_address(&info, i));
        step = connect_step(&info, i, false);
    }
    assert_eq!(step, ConnectStep::Failed);
    assert_eq!(tried, vec!["h:34255", "h:34256", "h:34257"]);
    assert_eq!(next_state(State::Connect, NetEvent::ConnectFailed), State::Off);
}

#[test]
fn no_allowed_attempt_fails_at_once() {
    let info = ConnectInfo { remote_addr: String::new(), base_addr: String::new(), base_local_port: 1, port_try_amount: 0 };
    assert_eq!(first_connect_step(&info), ConnectStep::Failed);
}
