use bts::utils::{get_file_basename, get_ws_url};

#[test]
fn test_get_file_basename() {
    let result = get_file_basename("livecode", "user", &1337u128);
    assert_eq!(result, "livecode_user_1337");
}

#[test]
fn test_get_ws_url() {
    let result = get_ws_url("ws", "somehost", "aroom", "auser");
    assert_eq!(result, "ws://somehost/aroom/auser");

    let result = get_ws_url("ws", "localhost:9000", "aroom", "auser");
    assert_eq!(result, "ws://localhost:9000/aroom/auser");

    let result = get_ws_url("ws", "127.0.0.1:9000", "aroom", "auser");
    assert_eq!(result, "ws://127.0.0.1:9000/aroom/auser");
}

#[test]
fn file_basename_of_zero_and_large_timestamps() {
    assert_eq!(get_file_basename("r", "h", &0u128), "r_h_0");
    assert_eq!(get_file_basename("r", "h", &10u128), "r_h_10");
    assert_eq!(
        get_file_basename("r", "h", &u128::MAX),
        format!("r_h_{}", u128::MAX)
    );
    assert_eq!(
        get_file_basename("room", "me", &1643391091653u128),
        "room_me_1643391091653"
    );
}

#[test]
fn ws_url_with_empty_and_unicode_parts() {
    assert_eq!(get_ws_url("", "", "", ""), ":////");
    assert_eq!(get_ws_url("wss", "hôte", "salle", "é"), "wss://hôte/salle/é");
}
