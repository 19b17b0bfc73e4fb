use vstd::prelude::*;
use vstd::string::*;

verus! {

/// The editor state that Bonzomatic sends over the network. The shader
/// time is held as the bit pattern of its `f64`.
pub struct Data {
    pub anchor: u32,
    pub caret: u32,
    pub code: String,
    pub compile: bool,
    pub first_visible_line: u32,
    pub nickname: String,
    pub room_name: String,
    pub shader_time_bits: u64,
}

/// One message of the Bonzomatic network protocol.
pub struct Payload {
    pub data: Data,
}

/// `text` without its last character.
pub open spec fn unframed(text: Seq<char>) -> Seq<char> {
    text.drop_last()
}

/// `json` followed by the `'\0'` that closes every message of the protocol.
pub open spec fn framed(json: Seq<char>) -> Seq<char> {
    json.push('\0')
}

/// `name` followed by `ext`.
pub open spec fn with_extension(name: Seq<char>, ext: Seq<char>) -> Seq<char> {
    name + seq!['.'] + ext
}

impl Payload {
    pub fn get_caret(&self) -> (r: u32)
        ensures
            r == self.data.caret,
    {
        self.data.caret
    }

    pub fn get_anchor(&self) -> (r: u32)
        ensures
            r == self.data.anchor,
    {
        self.data.anchor
    }

    pub fn get_compile(&self) -> (r: bool)
        ensures
            r == self.data.compile,
    {
        self.data.compile
    }

    pub fn get_code(&self) -> (r: &String)
        ensures
            r == &self.data.code,
    {
        &self.data.code
    }

    pub fn get_visible_line(&self) -> (r: u32)
        ensures
            r == self.data.first_visible_line,
    {
        self.data.first_visible_line
    }

    pub fn get_nickname(&self) -> (r: &String)
        ensures
            r == &self.data.nickname,
    {
        &self.data.nickname
    }

    /// The bit pattern of the shader time.
    pub fn get_shader_time_bits(&self) -> (r: u64)
        ensures
            r == self.data.shader_time_bits,
    {
        self.data.shader_time_bits
    }

    /// Sets the shader time (as a bit pattern) and nothing else.
    pub fn update_shader_time_bits(&mut self, shader_time_bits: u64)
        ensures
            final(self).data.shader_time_bits == shader_time_bits,
            final(self).data.anchor == old(self).data.anchor,
            final(self).data.caret == old(self).data.caret,
            final(self).data.code == old(self).data.code,
            final(self).data.compile == old(self).data.compile,
            final(self).data.first_visible_line == old(self).data.first_visible_line,
            final(self).data.nickname == old(self).data.nickname,
            final(self).data.room_name == old(self).data.room_name,
    {
        self.data.shader_time_bits = shader_time_bits;
    }

    /// A payload of the given fields.
    pub fn from(
        anchor: u32,
        caret: u32,
        code: String,
        compile: bool,
        first_visible_line: u32,
        nickname: String,
        room_name: String,
        shader_time_bits: u64,
    ) -> (r: Self)
        ensures
            r.data.anchor == anchor,
            r.data.caret == caret,
            r.data.code == code,
            r.data.compile == compile,
            r.data.first_visible_line == first_visible_line,
            r.data.nickname == nickname,
            r.data.room_name == room_name,
            r.data.shader_time_bits == shader_time_bits,
    {
        Payload {
            data: Data {
                anchor,
                caret,
                code,
                compile,
                first_visible_line,
                nickname,
                room_name,
                shader_time_bits,
            },
        }
    }

    /// Which files a save writes: the current shader (`.glsl`) when
    /// `save_glsl`, and the history line (`.json`) when `save_history`,
    /// unless only compiled shaders are kept and this one is not.
    pub fn save_targets(&self, save_glsl: bool, save_history: bool, only_compile: bool) -> (r: (
        bool,
        bool,
    ))
        ensures
            r.0 == save_glsl,
            r.1 == (save_history && (!only_compile || self.data.compile)),
    {
        (save_glsl, save_history && (!only_compile || self.data.compile))
    }
}

/// The JSON text of a received message: the text without the `'\0'` (or
/// other one-byte character) that closes it.
pub fn unframe_message_text(text: &str) -> (r: String)
    requires
        text@.len() > 0,
        (text@.last() as u32) < 128,
    ensures
        r@ == unframed(text@),
{
    let n = text.unicode_len();
    let r = text.substring_char(0, n - 1).to_owned();
    assert(r@ =~= unframed(text@));
    r
}

/// The text of the message that carries `json`: Bonzomatic expects a
/// closing `'\0'`.
pub fn frame_message_text(json: &str) -> (r: String)
    ensures
        r@ == framed(json@),
{
    let nul = "\0";
    proof {
        reveal_strlit("\0");
    }
    let mut r = json.to_owned();
    r.append(nul);
    assert(r@ =~= framed(json@));
    r
}

/// Unframing the text of a framed message gives back the JSON text.
pub proof fn law_frame_unframe(json: Seq<char>)
    ensures
        framed(json).len() > 0,
        (framed(json).last() as u32) < 128,
        unframed(framed(json)) == json,
{
    assert(framed(json).drop_last() =~= json);
}

/// `name.ext`
pub fn file_name_with_extension(name: &str, ext: &str) -> (r: String)
    ensures
        r@ == with_extension(name@, ext@),
{
    let dot = ".";
    proof {
        reveal_strlit(".");
    }
    let mut r = name.to_owned();
    r.append(dot);
    r.append(ext);
    assert(r@ =~= with_extension(name@, ext@));
    r
}

/// The line appended to a history file: the JSON text and a newline.
pub fn history_line(json: &str) -> (r: String)
    ensures
        r@ == json@.push('\n'),
{
    let nl = "\n";
    proof {
        reveal_strlit("\n");
    }
    let mut r = json.to_owned();
    r.append(nl);
    assert(r@ =~= json@.push('\n'));
    r
}

} // verus!
