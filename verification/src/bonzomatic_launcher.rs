use vstd::prelude::*;
use vstd::string::*;

verus! {

/// How a Bonzomatic instance takes part in a network session.
#[derive(Debug, Clone, Copy, PartialEq, Eq)]
pub enum NetworkMode {
    Sender,
    Grabber,
}

/// `networkMode=sender` or `networkMode=grabber`.
pub open spec fn network_mode_arg(mode: NetworkMode) -> Seq<char> {
    seq!['n', 'e', 't', 'w', 'o', 'r', 'k', 'M', 'o', 'd', 'e', '='] + match mode {
        NetworkMode::Sender => seq!['s', 'e', 'n', 'd', 'e', 'r'],
        NetworkMode::Grabber => seq!['g', 'r', 'a', 'b', 'b', 'e', 'r'],
    }
}

/// `serverURL=url`
pub open spec fn server_url_arg(url: Seq<char>) -> Seq<char> {
    seq!['s', 'e', 'r', 'v', 'e', 'r', 'U', 'R', 'L', '='] + url
}

/// The command line of a Bonzomatic instance: `skipdialog` when asked
/// for, then the network mode and the server URL.
pub open spec fn launch_args(skipdialog: bool, mode: NetworkMode, url: Seq<char>) -> Seq<
    Seq<char>,
> {
    let tail = seq![network_mode_arg(mode), server_url_arg(url)];
    if skipdialog {
        seq![seq!['s', 'k', 'i', 'p', 'd', 'i', 'a', 'l', 'o', 'g']] + tail
    } else {
        tail
    }
}

/// The network mode argument of Bonzomatic.
pub fn get_network_mode(mode: NetworkMode) -> (r: String)
    ensures
        r@ == network_mode_arg(mode),
{
    match mode {
        NetworkMode::Sender => {
            let s = "networkMode=sender";
            proof {
                reveal_strlit("networkMode=sender");
            }
            let r = s.to_owned();
            assert(r@ =~= network_mode_arg(mode));
            r
        },
        NetworkMode::Grabber => {
            let s = "networkMode=grabber";
            proof {
                reveal_strlit("networkMode=grabber");
            }
            let r = s.to_owned();
            assert(r@ =~= network_mode_arg(mode));
            r
        },
    }
}

/// The server URL argument of Bonzomatic.
pub fn get_server_url(url: &String) -> (r: String)
    ensures
        r@ == server_url_arg(url@),
{
    let prefix = "serverURL=";
    proof {
        reveal_strlit("serverURL=");
    }
    let mut r = prefix.to_owned();
    r.append(url.as_str());
    assert(r@ =~= server_url_arg(url@));
    r
}

/// The arguments a Bonzomatic instance is started with.
pub fn bonzomatic_arg_list(skipdialog: bool, network_mode: NetworkMode, server_url: &String) -> (r:
    Vec<String>)
    ensures
        r.deep_view() == launch_args(skipdialog, network_mode, server_url@),
{
    let mut v: Vec<String> = Vec::new();
    if skipdialog {
        let s = "skipdialog";
        proof {
            reveal_strlit("skipdialog");
        }
        v.push(s.to_owned());
        assert(s@ =~= seq!['s', 'k', 'i', 'p', 'd', 'i', 'a', 'l', 'o', 'g']);
        assert(v.deep_view() =~= seq![s@]);
    } else {
        assert(v.deep_view() =~= Seq::<Seq<char>>::empty());
    }
    let ghost head = v.deep_view();
    let mode = get_network_mode(network_mode);
    let url = get_server_url(server_url);
    v.push(mode);
    assert(v.deep_view() =~= head.push(mode@));
    v.push(url);
    assert(v.deep_view() =~= head.push(mode@).push(url@));
    assert(v.deep_view() =~= launch_args(skipdialog, network_mode, server_url@));
    v
}

/// Bonzomatic is told to skip its dialog exactly when asked, whatever the
/// network mode: with `skipdialog` the arguments are `skipdialog` followed
/// by the arguments without it, which are the network mode argument
/// (`networkMode=` and the mode) and then the server URL argument
/// (`serverURL=` and the URL).
pub proof fn law_launch_args(mode: NetworkMode, url: Seq<char>)
    ensures
        launch_args(true, mode, url) == seq![
            seq!['s', 'k', 'i', 'p', 'd', 'i', 'a', 'l', 'o', 'g'],
        ] + launch_args(false, mode, url),
        launch_args(false, mode, url).len() == 2,
        launch_args(false, mode, url)[0] == seq![
            'n',
            'e',
            't',
            'w',
            'o',
            'r',
            'k',
            'M',
            'o',
            'd',
            'e',
            '=',
        ] + (if mode == NetworkMode::Sender {
            seq!['s', 'e', 'n', 'd', 'e', 'r']
        } else {
            seq!['g', 'r', 'a', 'b', 'b', 'e', 'r']
        }),
        launch_args(false, mode, url)[1] == seq!['s', 'e', 'r', 'v', 'e', 'r', 'U', 'R', 'L', '=']
            + url,
{
}

} // verus!
