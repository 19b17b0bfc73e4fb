use bts::server::state::ServerState;
use bts::server::wsbonzoendpoint::WsBonzoEndpoint;

fn ep(path: &str) -> WsBonzoEndpoint {
    WsBonzoEndpoint::parse_resource(path).unwrap()
}

fn sorted(mut v: Vec<u64>) -> Vec<u64> {
    v.sort();
    v
}

#[test]
fn broadcast_reaches_room_and_same_handle_listeners() {
    let mut s = ServerState::new();
    s.connect(1, ep("/live/alice"));
    s.connect(2, ep("/live"));
    s.connect(3, ep("/live/alice"));
    s.connect(4, ep("/live/bob"));
    s.connect(5, ep("/other"));
    let r = s.on_message(1).unwrap();
    assert_eq!(sorted(r), vec![2, 3]);
}

#[test]
fn second_sender_on_a_taken_endpoint_is_refused_until_the_first_leaves() {
    let mut s = ServerState::new();
    s.connect(1, ep("/live/alice"));
    s.connect(2, ep("/live/alice"));
    assert!(s.on_message(1).is_ok());
    assert_eq!(s.on_message(2), Err(()));
    assert!(s.on_message(1).is_ok());
    s.disconnect(1);
    assert!(!s.is_connected(1));
    assert_eq!(s.on_message(2), Ok(vec![]));
}

#[test]
fn taken_endpoints_by_room() {
    let mut s = ServerState::new();
    s.connect(1, ep("/live/alice"));
    s.connect(2, ep("/live/bob"));
    s.connect(3, ep("/other/carol"));
    s.connect(4, ep("/live"));
    assert!(s.on_message(1).is_ok());
    assert!(s.on_message(3).is_ok());
    let live: Vec<String> = s
        .endpoints_in_room(&String::from("live"))
        .into_iter()
        .map(|e| e.user.unwrap())
        .collect();
    assert_eq!(live, vec!["alice"]);
    assert_eq!(s.endpoints_in_room(&String::new()).len(), 2);
    s.disconnect(3);
    assert_eq!(s.endpoints_in_room(&String::new()).len(), 1);
    s.disconnect(42);
    assert!(s.is_connected(2));
}
