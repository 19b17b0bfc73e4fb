use vstd::prelude::*;
use vstd::string::*;

use crate::utils::{file_basename, get_file_basename, ws_url};

verus! {

/// What an endpoint is: its room and, for a sender or a grabber of one
/// handle, that handle; `None` listens to the whole room.
pub type EndpointView = (Seq<char>, Option<Seq<char>>);

/// The state after reading a path from the left: the non-empty segments
/// already closed by a `'/'`, and the segment being read.
pub open spec fn split_state(s: Seq<char>) -> (Seq<Seq<char>>, Seq<char>)
    decreases s.len(),
{
    if s.len() == 0 {
        (Seq::empty(), Seq::empty())
    } else {
        let (done, cur) = split_state(s.drop_last());
        if s.last() == '/' {
            if cur.len() > 0 {
                (done.push(cur), Seq::empty())
            } else {
                (done, Seq::empty())
            }
        } else {
            (done, cur.push(s.last()))
        }
    }
}

/// The non-empty pieces of `s` between `'/'` characters, in order.
pub open spec fn segments(s: Seq<char>) -> Seq<Seq<char>> {
    let (done, cur) = split_state(s);
    if cur.len() > 0 {
        done.push(cur)
    } else {
        done
    }
}

/// Whether a message of the endpoint `from` is delivered to the endpoint `to`:
/// same room, and `to` listens to the whole room or to the handle of `from`.
pub open spec fn can_send(from: EndpointView, to: EndpointView) -> bool {
    &&& to.0 == from.0
    &&& (to.1 is None || to.1 == from.1)
}

/// `room_user.json`
pub open spec fn json_name(room: Seq<char>, user: Seq<char>) -> Seq<char> {
    room + seq!['_'] + user + seq!['.', 'j', 's', 'o', 'n']
}

/// The room an information endpoint reports on: `/_room` reports on
/// `room`, `/_` on every room (the empty room). Other endpoints report on
/// none.
pub open spec fn spec_info_room(e: EndpointView) -> Option<Seq<char>> {
    if e.1 is None && e.0.len() > 0 && e.0[0] == '_' {
        Some(e.0.drop_first())
    } else {
        None
    }
}

/// The endpoint a request path names, or why it names none.
pub open spec fn spec_parse_resource(q: Seq<char>) -> Result<EndpointView, ()> {
    let segs = segments(q);
    if q.len() == 0 || q[0] != '/' {
        Err(())
    } else if segs.len() == 1 {
        Ok((segs[0], None))
    } else if segs.len() == 2 {
        Ok((segs[0], Some(segs[1])))
    } else {
        Err(())
    }
}

/// A path segment: non-empty and free of `'/'`.
pub open spec fn is_segment(s: Seq<char>) -> bool {
    s.len() > 0 && forall|i: int| 0 <= i < s.len() ==> s[i] != '/'
}

proof fn lemma_split_append_plain(p: Seq<char>, s: Seq<char>)
    requires
        forall|i: int| 0 <= i < s.len() ==> s[i] != '/',
    ensures
        split_state(p + s) == (split_state(p).0, split_state(p).1 + s),
    decreases s.len(),
{
    if s.len() == 0 {
        assert(p + s =~= p);
        assert(split_state(p).1 + s =~= split_state(p).1);
    } else {
        lemma_split_append_plain(p, s.drop_last());
        assert((p + s).drop_last() =~= p + s.drop_last());
        assert((p + s).last() == s.last());
        assert(split_state(p).1 + s =~= (split_state(p).1 + s.drop_last()).push(s.last()));
    }
}

proof fn lemma_split_append_slash(p: Seq<char>)
    ensures
        split_state(p.push('/')) == (if split_state(p).1.len() > 0 {
            split_state(p).0.push(split_state(p).1)
        } else {
            split_state(p).0
        }, Seq::<char>::empty()),
{
    assert(p.push('/').drop_last() =~= p);
}

/// The path `/room/user` of two segments names the endpoint of that user in
/// that room: what a client puts after the host in its websocket URL is
/// what the server reads back.
pub proof fn law_parse_user_path(room: Seq<char>, user: Seq<char>)
    requires
        is_segment(room),
        is_segment(user),
    ensures
        spec_parse_resource(seq!['/'] + room + seq!['/'] + user) == Ok::<EndpointView, ()>(
            (room, Some(user)),
        ),
{
    let e = Seq::<char>::empty();
    lemma_split_append_slash(e);
    assert(split_state(e) == (Seq::<Seq<char>>::empty(), e));
    assert(e.push('/') =~= seq!['/']);
    lemma_split_append_plain(seq!['/'], room);
    assert(e + room =~= room);
    let p1 = seq!['/'] + room;
    lemma_split_append_slash(p1);
    assert(p1.push('/') =~= seq!['/'] + room + seq!['/']);
    lemma_split_append_plain(p1.push('/'), user);
    assert(Seq::<Seq<char>>::empty().push(room) =~= seq![room]);
    assert(e + user =~= user);
    let q = seq!['/'] + room + seq!['/'] + user;
    assert(q[0] == '/');
    assert(segments(q) =~= seq![room, user]);
}

/// The websocket URL of a handle in a room is the host followed by the
/// path `/room/handle`, and the server reads that path back as the
/// endpoint of that handle in that room.
pub proof fn law_url_names_endpoint(
    protocol: Seq<char>,
    host: Seq<char>,
    room: Seq<char>,
    handle: Seq<char>,
)
    requires
        is_segment(room),
        is_segment(handle),
    ensures
        ws_url(protocol, host, room, handle) == protocol + seq![':', '/', '/'] + host + (seq!['/']
            + room + seq!['/'] + handle),
        spec_parse_resource(seq!['/'] + room + seq!['/'] + handle) == Ok::<EndpointView, ()>(
            (room, Some(handle)),
        ),
{
    law_parse_user_path(room, handle);
    assert(ws_url(protocol, host, room, handle) =~= protocol + seq![':', '/', '/'] + host + (
    seq!['/'] + room + seq!['/'] + handle));
}

/// The path `/room`, with or without a closing `/`, names the endpoint
/// that listens to the whole room.
pub proof fn law_parse_room_path(room: Seq<char>, closed: bool)
    requires
        is_segment(room),
    ensures
        spec_parse_resource(
            if closed { seq!['/'] + room + seq!['/'] } else { seq!['/'] + room },
        ) == Ok::<EndpointView, ()>((room, None)),
{
    let e = Seq::<char>::empty();
    lemma_split_append_slash(e);
    assert(split_state(e) == (Seq::<Seq<char>>::empty(), e));
    assert(e.push('/') =~= seq!['/']);
    lemma_split_append_plain(seq!['/'], room);
    assert(e + room =~= room);
    let p1 = seq!['/'] + room;
    lemma_split_append_slash(p1);
    assert(p1.push('/') =~= seq!['/'] + room + seq!['/']);
    assert(Seq::<Seq<char>>::empty().push(room) =~= seq![room]);
    assert(segments(p1) =~= seq![room]);
    assert(segments(p1.push('/')) =~= seq![room]);
}

/// Every endpoint receives what it sends itself, a room endpoint receives
/// what any endpoint of its room sends, and nothing crosses rooms.
pub proof fn law_can_send(from: EndpointView, to: EndpointView)
    ensures
        can_send(from, from),
        can_send(from, (from.0, None)),
        from.0 != to.0 ==> !can_send(from, to),
        to.1 is Some && to.1 != from.1 ==> !can_send(from, to),
{
}

/// A websocket endpoint of the server: `/room` or `/room/user`.
#[derive(Debug, Clone, PartialEq, Eq, Hash)]
pub struct WsBonzoEndpoint {
    pub room: String,
    pub user: Option<String>,
}

impl View for WsBonzoEndpoint {
    type V = EndpointView;

    open spec fn view(&self) -> EndpointView {
        (self.room@, self.user.deep_view())
    }
}

impl WsBonzoEndpoint {
    /// The endpoint of no room and no user.
    pub fn empty() -> (r: Self)
        ensures
            r@ == (Seq::<char>::empty(), None::<Seq<char>>),
    {
        WsBonzoEndpoint { room: String::new(), user: None }
    }

    /// A copy of the endpoint.
    pub fn duplicate(&self) -> (r: Self)
        ensures
            r@ == self@,
    {
        let user = match &self.user {
            Some(u) => Some(u.clone()),
            None => None,
        };
        WsBonzoEndpoint { room: self.room.clone(), user }
    }

    /// Whether two endpoints name the same room and user.
    pub fn same_as(&self, other: &WsBonzoEndpoint) -> (r: bool)
        ensures
            r == (self@ == other@),
    {
        if self.room != other.room {
            return false;
        }
        match (&self.user, &other.user) {
            (Some(a), Some(b)) => *a == *b,
            (None, None) => true,
            _ => false,
        }
    }

    /// Whether what `self` sends is delivered to `other`.
    pub fn can_send_to(&self, other: &WsBonzoEndpoint) -> (r: bool)
        ensures
            r == can_send(self@, other@),
    {
        if other.room != self.room {
            return false;
        }
        match (&other.user, &self.user) {
            (None, _) => true,
            (Some(a), Some(b)) => *a == *b,
            (Some(_), None) => false,
        }
    }

    /// The file a user's session is saved in: `room_user.json`; a room
    /// endpoint has none.
    pub fn json_filename(&self) -> (r: Result<String, ()>)
        ensures
            match self@.1 {
                Some(u) => r matches Ok(name) && name@ == json_name(self@.0, u),
                None => r is Err,
            },
    {
        match &self.user {
            Some(user) => {
                let underscore = "_";
                let ext = ".json";
                proof {
                    reveal_strlit("_");
                    reveal_strlit(".json");
                }
                let mut name = self.room.clone();
                name.append(underscore);
                name.append(user.as_str());
                name.append(ext);
                assert(name@ =~= json_name(self.room@, user@));
                Ok(name)
            },
            None => Err(()),
        }
    }

    /// The room this endpoint reports on, when it is an information
    /// endpoint.
    pub fn info_room(&self) -> (r: Option<String>)
        ensures
            r.deep_view() == spec_info_room(self@),
    {
        if self.user.is_some() {
            return None;
        }
        let n = self.room.as_str().unicode_len();
        if n == 0 || self.room.as_str().get_char(0) != '_' {
            return None;
        }
        let rest = self.room.as_str().substring_char(1, n).to_owned();
        assert(rest@ =~= self.room@.drop_first());
        Some(rest)
    }

    /// The base name of the files a sender's shaders are saved in:
    /// `room_user_ts`; a room endpoint has none.
    pub fn filename(&self, ts: &u128) -> (r: Result<String, ()>)
        ensures
            match self@.1 {
                Some(u) => r matches Ok(name) && name@ == file_basename(self@.0, u, *ts as nat),
                None => r is Err,
            },
    {
        match &self.user {
            Some(user) => Ok(get_file_basename(self.room.as_str(), user.as_str(), ts)),
            None => Err(()),
        }
    }

    /// Parses a request path, `/room` or `/room/user` (empty segments are
    /// skipped). A path that does not start with `/` is refused with
    /// "Not starting with /", one of another number of segments with
    /// "Path not correct".
    pub fn parse_resource(query: &str) -> (r: Result<WsBonzoEndpoint, String>)
        requires
            query@.len() > 0,
        ensures
            match spec_parse_resource(query@) {
                Ok(ep) => r matches Ok(e) && e@ == ep,
                Err(_) => r matches Err(msg) && (if query@[0] != '/' {
                    msg@ == "Not starting with /"@
                } else {
                    msg@ == "Path not correct"@
                }),
            },
    {
        if query.get_char(0) != '/' {
            return Err(String::from_str("Not starting with /"));
        }
        let parts = split_path(query);
        if parts.len() == 1 {
            Ok(WsBonzoEndpoint { room: parts[0].clone(), user: None })
        } else if parts.len() == 2 {
            Ok(WsBonzoEndpoint { room: parts[0].clone(), user: Some(parts[1].clone()) })
        } else {
            Err(String::from_str("Path not correct"))
        }
    }
}

/// The non-empty segments of a path, in order.
pub fn split_path(query: &str) -> (parts: Vec<String>)
    ensures
        parts.deep_view() == segments(query@),
{
    let n = query.unicode_len();
    let mut parts: Vec<String> = Vec::new();
    let mut start: usize = 0;
    for i in 0..n
        invariant
            n == query@.len(),
            start <= i,
            split_state(query@.subrange(0, i as int)) == (
                parts.deep_view(),
                query@.subrange(start as int, i as int),
            ),
    {
        let c = query.get_char(i);
        let ghost pre = query@.subrange(0, i as int);
        assert(query@.subrange(0, i + 1).drop_last() =~= pre);
        if c == '/' {
            if start < i {
                let piece = query.substring_char(start, i).to_owned();
                parts.push(piece);
                assert(parts.deep_view() =~= split_state(pre).0.push(split_state(pre).1));
            }
            start = i + 1;
            assert(query@.subrange(start as int, i + 1) =~= Seq::<char>::empty());
        } else {
            assert(query@.subrange(start as int, i + 1) =~= query@.subrange(
                start as int,
                i as int,
            ).push(c));
        }
    }
    if start < n {
        let piece = query.substring_char(start, n).to_owned();
        parts.push(piece);
    }
    assert(query@.subrange(0, n as int) =~= query@);
    assert(parts.deep_view() =~= segments(query@));
    parts
}

} // verus!
