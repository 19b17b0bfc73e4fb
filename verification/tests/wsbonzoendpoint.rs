use bts::server::wsbonzoendpoint::WsBonzoEndpoint;
use bts::utils::get_ws_url;

#[test]
#[allow(non_snake_case)]
fn test_parse_Wsbonzoendpoint_struct() {
    let faulty = "toto/toto";
    let faulty = WsBonzoEndpoint::parse_resource(faulty);
    assert!(faulty.is_err());

    let ok = "/abcd/toto";
    let ok = WsBonzoEndpoint::parse_resource(ok);
    assert!(ok.is_ok());
    let ok = ok.unwrap();
    assert!(ok.user == Some(String::from("toto")));
    assert!(ok.room == String::from("abcd"));

    let ok = "/abcd/toto/";
    let ok = WsBonzoEndpoint::parse_resource(ok);
    assert!(ok.is_ok());
    let ok = ok.unwrap();
    assert!(ok.user == Some(String::from("toto")));
    assert!(ok.room == String::from("abcd"));

    let ok = "/abcd/";
    let ok = WsBonzoEndpoint::parse_resource(ok);
    assert!(ok.is_ok());
    let ok = ok.unwrap();
    assert!(ok.user == None);
    assert!(ok.room == String::from("abcd"));

    let ok = "/abcd";
    let ok = WsBonzoEndpoint::parse_resource(ok);
    assert!(ok.is_ok());
    let ok = ok.unwrap();
    assert!(ok.user == None);
    assert!(ok.room == String::from("abcd"));
}

#[test]
fn test_can_send_to() {
    let user_ep = "/lol/pouet";
    let room_ep = "/lol/";
    let user2_ep = "/lol/toto";
    let user3_ep = "/ttt/toto";

    let user_ep = WsBonzoEndpoint::parse_resource(user_ep).unwrap();
    let room_ep = WsBonzoEndpoint::parse_resource(room_ep).unwrap();
    let user2_ep = WsBonzoEndpoint::parse_resource(user2_ep).unwrap();
    let user3_ep = WsBonzoEndpoint::parse_resource(user3_ep).unwrap();

    assert!(user_ep.can_send_to(&room_ep));
    assert!(
        !room_ep.can_send_to(&user_ep),
        "Should not be able to send from room to endpoint"
    );

    assert!(user2_ep.can_send_to(&room_ep));
    assert!(!user3_ep.can_send_to(&room_ep));
}

#[test]
fn parse_resource_error_messages() {
    assert_eq!(
        WsBonzoEndpoint::parse_resource("abcd").unwrap_err(),
        "Not starting with /"
    );
    assert_eq!(
        WsBonzoEndpoint::parse_resource("/a/b/c").unwrap_err(),
        "Path not correct"
    );
    assert_eq!(
        WsBonzoEndpoint::parse_resource("/").unwrap_err(),
        "Path not correct"
    );
    assert_eq!(
        WsBonzoEndpoint::parse_resource("///").unwrap_err(),
        "Path not correct"
    );
}

#[test]
fn parse_resource_skips_empty_segments() {
    let e = WsBonzoEndpoint::parse_resource("//room//user//").unwrap();
    assert_eq!(e.room, "room");
    assert_eq!(e.user, Some(String::from("user")));
    let e = WsBonzoEndpoint::parse_resource("/salle/élève").unwrap();
    assert_eq!(e.room, "salle");
    assert_eq!(e.user, Some(String::from("élève")));
}

#[test]
fn path_of_a_ws_url_names_its_endpoint() {
    let url = get_ws_url("ws", "localhost:9785", "livecode", "totetmatt");
    let path = &url["ws://localhost:9785".len()..];
    let e = WsBonzoEndpoint::parse_resource(path).unwrap();
    assert_eq!(e.room, "livecode");
    assert_eq!(e.user, Some(String::from("totetmatt")));
}

#[test]
fn endpoint_sends_to_itself_and_not_across_rooms() {
    let a = WsBonzoEndpoint::parse_resource("/r/a").unwrap();
    let b = WsBonzoEndpoint::parse_resource("/r/b").unwrap();
    let other_room = WsBonzoEndpoint::parse_resource("/s").unwrap();
    assert!(a.can_send_to(&a));
    assert!(!a.can_send_to(&b));
    assert!(!a.can_send_to(&other_room));
    let room = WsBonzoEndpoint::parse_resource("/r").unwrap();
    assert!(room.can_send_to(&room));
}

#[test]
fn json_filename_and_save_basename() {
    let user = WsBonzoEndpoint::parse_resource("/livecode/user").unwrap();
    assert_eq!(user.json_filename(), Ok(String::from("livecode_user.json")));
    assert_eq!(user.filename(&42u128), Ok(String::from("livecode_user_42")));
    let room = WsBonzoEndpoint::parse_resource("/livecode").unwrap();
    assert_eq!(room.json_filename(), Err(()));
    assert_eq!(room.filename(&42u128), Err(()));
}

#[test]
fn empty_endpoint_and_copies() {
    let e = WsBonzoEndpoint::empty();
    assert_eq!(e.room, "");
    assert_eq!(e.user, None);
    let a = WsBonzoEndpoint::parse_resource("/r/a").unwrap();
    let c = a.duplicate();
    assert!(a.same_as(&c));
    assert!(!a.same_as(&e));
}

#[test]
fn information_endpoints() {
    let all = WsBonzoEndpoint::parse_resource("/_").unwrap();
    assert_eq!(all.info_room(), Some(String::new()));
    let room = WsBonzoEndpoint::parse_resource("/_livecode").unwrap();
    assert_eq!(room.info_room(), Some(String::from("livecode")));
    let plain = WsBonzoEndpoint::parse_resource("/livecode").unwrap();
    assert_eq!(plain.info_room(), None);
    let user = WsBonzoEndpoint::parse_resource("/_livecode/me").unwrap();
    assert_eq!(user.info_room(), None);
}
