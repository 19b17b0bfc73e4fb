use bts::bonzomatic_launcher::{bonzomatic_arg_list, get_network_mode, get_server_url, NetworkMode};

#[test]
fn network_mode_arguments() {
    assert_eq!(get_network_mode(NetworkMode::Sender), "networkMode=sender");
    assert_eq!(get_network_mode(NetworkMode::Grabber), "networkMode=grabber");
}

#[test]
fn server_url_argument() {
    let url = String::from("ws://127.0.0.1:9785/local_replay/replay");
    assert_eq!(
        get_server_url(&url),
        "serverURL=ws://127.0.0.1:9785/local_replay/replay"
    );
}

#[test]
fn argument_lists() {
    let url = String::from("ws://h/r/u");
    assert_eq!(
        bonzomatic_arg_list(true, NetworkMode::Sender, &url),
        vec!["skipdialog", "networkMode=sender", "serverURL=ws://h/r/u"]
    );
    assert_eq!(
        bonzomatic_arg_list(false, NetworkMode::Grabber, &url),
        vec!["networkMode=grabber", "serverURL=ws://h/r/u"]
    );
}
