use vstd::prelude::*;
use vstd::string::*;

verus! {

/// The character of a decimal digit `d` (`0 <= d < 10`).
pub open spec fn digit_char(d: nat) -> char {
    seq!['0', '1', '2', '3', '4', '5', '6', '7', '8', '9'][d as int]
}

/// The decimal notation of `n`, most significant digit first, without
/// leading zeros (`0` is written as a single `'0'`).
pub open spec fn decimal(n: nat) -> Seq<char>
    decreases n,
{
    if n < 10 {
        seq![digit_char(n)]
    } else {
        decimal(n / 10).push(digit_char(n % 10))
    }
}

/// `protocol://host/room/handle`
pub open spec fn ws_url(
    protocol: Seq<char>,
    host: Seq<char>,
    room: Seq<char>,
    handle: Seq<char>,
) -> Seq<char> {
    protocol + seq![':', '/', '/'] + host + seq!['/'] + room + seq!['/'] + handle
}

/// `room_handle_ts`, the timestamp written in decimal.
pub open spec fn file_basename(room: Seq<char>, handle: Seq<char>, ts: nat) -> Seq<char> {
    room + seq!['_'] + handle + seq!['_'] + decimal(ts)
}

/// The one-character string of the decimal digit `d`.
fn digit_str(d: u128) -> (r: &'static str)
    requires
        d < 10,
    ensures
        r@ == seq![digit_char(d as nat)],
{
    let digits = "0123456789";
    proof {
        reveal_strlit("0123456789");
    }
    let i = d as usize;
    let r = digits.substring_char(i, i + 1);
    assert(r@ =~= seq![digit_char(d as nat)]);
    r
}

/// Appends the decimal notation of `n` to `s`.
fn push_decimal(s: &mut String, n: u128)
    ensures
        final(s)@ == old(s)@ + decimal(n as nat),
    decreases n,
{
    if n >= 10 {
        push_decimal(s, n / 10);
    }
    s.append(digit_str(n % 10));
    proof {
        if n >= 10 {
            assert(decimal(n as nat) == decimal((n / 10) as nat).push(digit_char((n % 10) as nat)));
        }
    }
    assert(s@ =~= old(s)@ + decimal(n as nat));
}

/// The websocket URL of a handle in a room: `protocol://host/room/handle`.
pub fn get_ws_url(protocol: &str, host: &str, room: &str, handle: &str) -> (r: String)
    ensures
        r@ == ws_url(protocol@, host@, room@, handle@),
{
    let sep = "://";
    let slash = "/";
    proof {
        reveal_strlit("://");
        reveal_strlit("/");
    }
    let mut r = String::new();
    r.append(protocol);
    r.append(sep);
    r.append(host);
    r.append(slash);
    r.append(room);
    r.append(slash);
    r.append(handle);
    assert(r@ =~= ws_url(protocol@, host@, room@, handle@));
    r
}

/// The base name of the files of a recording: `room_handle_ts`, with the
/// timestamp in decimal.
pub fn get_file_basename(room: &str, handle: &str, ts: &u128) -> (r: String)
    ensures
        r@ == file_basename(room@, handle@, *ts as nat),
{
    let underscore = "_";
    proof {
        reveal_strlit("_");
    }
    let mut r = String::new();
    r.append(room);
    r.append(underscore);
    r.append(handle);
    r.append(underscore);
    push_decimal(&mut r, *ts);
    assert(r@ =~= file_basename(room@, handle@, *ts as nat));
    r
}

} // verus!
