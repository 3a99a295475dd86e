//! Audio helpers: the requests for speech synthesis and transcription, and
//! audio files as `data:` URLs the webview can play.
use vstd::prelude::*;
use crate::text::{append_str, string_from, str_chars};
use base64::Engine;

verus! {

/// The character for a 6-bit value in the standard base64 alphabet.
pub open spec fn b64_char(v: int) -> char {
    if v < 26 {
        (65 + v) as char
    } else if v < 52 {
        (97 + v - 26) as char
    } else if v < 62 {
        (48 + v - 52) as char
    } else if v == 62 {
        '+'
    } else {
        '/'
    }
}

/// Standard base64 (RFC 4648, alphabet `A-Z a-z 0-9 + /`, `=` padding):
/// each 3 bytes become 4 characters; a last group of 1 or 2 bytes is padded.
pub open spec fn base64_std(d: Seq<u8>) -> Seq<char>
    decreases d.len(),
{
    if d.len() == 0 {
        Seq::empty()
    } else if d.len() == 1 {
        seq![b64_char((d[0] as int) / 4), b64_char(((d[0] as int) % 4) * 16), '=', '=']
    } else if d.len() == 2 {
        seq![
            b64_char((d[0] as int) / 4),
            b64_char(((d[0] as int) % 4) * 16 + (d[1] as int) / 16),
            b64_char(((d[1] as int) % 16) * 4),
            '=',
        ]
    } else {
        seq![
            b64_char((d[0] as int) / 4),
            b64_char(((d[0] as int) % 4) * 16 + (d[1] as int) / 16),
            b64_char(((d[1] as int) % 16) * 4 + (d[2] as int) / 64),
            b64_char((d[2] as int) % 64),
        ] + base64_std(d.skip(3))
    }
}

/// The 6-bit value of a character of the standard base64 alphabet.
pub open spec fn b64_value(c: char) -> int {
    if 'A' <= c <= 'Z' {
        (c as int) - 65
    } else if 'a' <= c <= 'z' {
        (c as int) - 97 + 26
    } else if '0' <= c <= '9' {
        (c as int) - 48 + 52
    } else if c == '+' {
        62
    } else {
        63
    }
}

/// Standard base64 decoding (RFC 4648, `=` padding): each 4 characters give
/// 3 bytes, or 1 or 2 bytes when the group is padded.
pub open spec fn base64_decode_std(s: Seq<char>) -> Seq<u8>
    decreases s.len(),
{
    if s.len() < 4 {
        Seq::empty()
    } else {
        let v0 = b64_value(s[0]);
        let v1 = b64_value(s[1]);
        let v2 = b64_value(s[2]);
        let v3 = b64_value(s[3]);
        let b0 = (v0 * 4 + v1 / 16) as u8;
        let b1 = ((v1 % 16) * 16 + v2 / 4) as u8;
        let b2 = ((v2 % 4) * 64 + v3) as u8;
        if s[2] == '=' {
            seq![b0]
        } else if s[3] == '=' {
            seq![b0, b1]
        } else {
            seq![b0, b1, b2] + base64_decode_std(s.skip(4))
        }
    }
}

proof fn lemma_b64_char_value(v: int)
    requires
        0 <= v < 64,
    ensures
        b64_value(b64_char(v)) == v,
        b64_char(v) != '=',
{
}

/// Decoding the standard base64 of some bytes gives the bytes back.
pub proof fn lemma_base64_round_trip(d: Seq<u8>)
    ensures
        base64_decode_std(base64_std(d)) == d,
    decreases d.len(),
{
    let e = base64_std(d);
    if d.len() == 0 {
    } else if d.len() == 1 {
        let x = d[0] as int;
        lemma_b64_char_value(x / 4);
        lemma_b64_char_value((x % 4) * 16);
        assert(e.len() == 4);
        assert(base64_decode_std(e) =~= d);
    } else if d.len() == 2 {
        let x = d[0] as int;
        let y = d[1] as int;
        lemma_b64_char_value(x / 4);
        lemma_b64_char_value((x % 4) * 16 + y / 16);
        lemma_b64_char_value((y % 16) * 4);
        assert(base64_decode_std(e) =~= d);
    } else {
        let x = d[0] as int;
        let y = d[1] as int;
        let z = d[2] as int;
        lemma_b64_char_value(x / 4);
        lemma_b64_char_value((x % 4) * 16 + y / 16);
        lemma_b64_char_value((y % 16) * 4 + z / 64);
        lemma_b64_char_value(z % 64);
        lemma_base64_round_trip(d.skip(3));
        let head = seq![
            b64_char(x / 4),
            b64_char((x % 4) * 16 + y / 16),
            b64_char((y % 16) * 4 + z / 64),
            b64_char(z % 64),
        ];
        assert(e == head + base64_std(d.skip(3)));
        assert(e.skip(4) =~= base64_std(d.skip(3)));
        assert(e[2] == head[2]);
        assert(e[3] == head[3]);
        assert(d =~= seq![d[0], d[1], d[2]] + d.skip(3));
        assert(base64_decode_std(e) =~= d);
    }
}

/// `base64::engine::general_purpose::STANDARD.encode`: standard base64
/// with padding. The output length `4 * ceil(n / 3)` must fit in `usize`
/// (the crate panics otherwise).
#[verifier::external_body]
fn base64_encode(data: &[u8]) -> (s: String)
    requires
        4 * ((data@.len() + 2) / 3) <= usize::MAX,
    ensures
        s@ == base64_std(data@),
{
    base64::engine::general_purpose::STANDARD.encode(data)
}

/// `c` lowered if it is an ASCII capital.
pub open spec fn ascii_lower(c: char) -> char {
    if 'A' <= c <= 'Z' {
        ((c as int) + 32) as char
    } else {
        c
    }
}

/// `ext.to_lowercase() == target` for a lowercase ASCII `target` without
/// `i` or `k`: the only non-ASCII characters whose lowercase holds an ASCII
/// letter are KELVIN SIGN (to `k`) and CAPITAL I WITH DOT ABOVE (to `i`
/// and a combining dot), so the match is character by character on ASCII.
pub open spec fn lower_is(ext: Seq<char>, target: Seq<char>) -> bool {
    ext.len() == target.len() && forall|i: int| 0 <= i < ext.len() ==> ascii_lower(#[trigger] ext[i]) == target[i]
}

/// The MIME type for an audio file extension (any case); `audio/wav` for
/// an unknown or missing one.
pub open spec fn audio_mime_type(ext: Option<Seq<char>>) -> Seq<char> {
    match ext {
        None => "audio/wav"@,
        Some(e) => if lower_is(e, "wav"@) {
            "audio/wav"@
        } else if lower_is(e, "mp3"@) {
            "audio/mpeg"@
        } else if lower_is(e, "ogg"@) || lower_is(e, "opus"@) {
            "audio/ogg"@
        } else if lower_is(e, "flac"@) {
            "audio/flac"@
        } else if lower_is(e, "aac"@) || lower_is(e, "m4a"@) {
            "audio/aac"@
        } else {
            "audio/wav"@
        },
    }
}

/// Whether `ext` lowercased is `target`.
fn lower_eq(ext: &str, target: &str) -> (b: bool)
    ensures
        b == lower_is(ext@, target@),
{
    let e = str_chars(ext);
    let t = str_chars(target);
    if e.len() != t.len() {
        return false;
    }
    let mut i: usize = 0;
    while i < e.len()
        invariant
            e@ == ext@,
            t@ == target@,
            e@.len() == t@.len(),
            0 <= i <= e@.len(),
            forall|j: int| 0 <= j < i ==> ascii_lower(#[trigger] e@[j]) == t@[j],
        decreases e@.len() - i,
    {
        let c = e[i];
        let l = if 'A' <= c && c <= 'Z' {
            char_from_u32_ascii(c as u32 + 32)
        } else {
            c
        };
        if l != t[i] {
            return false;
        }
        i = i + 1;
    }
    true
}

/// The ASCII character with code `u` (`u < 128`).
fn char_from_u32_ascii(u: u32) -> (c: char)
    requires
        u < 128,
    ensures
        c == u as char,
{
    let b: u8 = u as u8;
    b as char
}

/// The MIME type for an audio file extension.
pub fn audio_mime(ext: Option<&str>) -> (m: String)
    ensures
        m@ == audio_mime_type(
            match ext {
                Some(e) => Some(e@),
                None => None,
            },
        ),
{
    match ext {
        None => string_from("audio/wav"),
        Some(e) => if lower_eq(e, "wav") {
            string_from("audio/wav")
        } else if lower_eq(e, "mp3") {
            string_from("audio/mpeg")
        } else if lower_eq(e, "ogg") || lower_eq(e, "opus") {
            string_from("audio/ogg")
        } else if lower_eq(e, "flac") {
            string_from("audio/flac")
        } else if lower_eq(e, "aac") || lower_eq(e, "m4a") {
            string_from("audio/aac")
        } else {
            string_from("audio/wav")
        },
    }
}

/// The `data:` URL of an audio file with extension `ext` and contents
/// `data`.
pub open spec fn audio_url(ext: Option<Seq<char>>, data: Seq<u8>) -> Seq<char> {
    "data:"@ + audio_mime_type(ext) + ";base64,"@ + base64_std(data)
}

/// The `data:` URL of an audio file carries the file's bytes: after
/// `data:`, the MIME type and `;base64,` comes the standard base64 text,
/// which decodes to the bytes of the file.
pub proof fn lemma_audio_url_decodes(ext: Option<Seq<char>>, data: Seq<u8>)
    ensures
        audio_url(ext, data) == "data:"@ + audio_mime_type(ext) + ";base64,"@ + base64_std(data),
        base64_decode_std(
            audio_url(ext, data).skip(("data:"@ + audio_mime_type(ext) + ";base64,"@).len() as int),
        ) == data,
{
    let pre = "data:"@ + audio_mime_type(ext) + ";base64,"@;
    assert(audio_url(ext, data).skip(pre.len() as int) =~= base64_std(data));
    lemma_base64_round_trip(data);
}

/// An audio file as a base64 `data:` URL, typed by its extension.
pub fn audio_data_url(ext: Option<&str>, data: &[u8]) -> (url: String)
    requires
        4 * ((data@.len() + 2) / 3) <= usize::MAX,
    ensures
        url@ == audio_url(
            match ext {
                Some(e) => Some(e@),
                None => None,
            },
            data@,
        ),
{
    let mut url = string_from("data:");
    let mime = audio_mime(ext);
    append_str(&mut url, mime.as_str());
    append_str(&mut url, ";base64,");
    let b64 = base64_encode(data);
    append_str(&mut url, b64.as_str());
    url
}

/// What a task asks of the model router.
#[derive(PartialEq, Eq, Structural, Clone, Copy, Debug)]
pub enum TaskType {
    Tts,
    Transcribe,
}

/// A request to the model router: a fresh id, the task, its input, and
/// named extra parameters.
#[derive(Debug)]
pub struct TaskRequest {
    pub request_id: String,
    pub task_type: TaskType,
    pub input: String,
    pub model_override: Option<String>,
    pub extra: Vec<(String, String)>,
}

/// A hyphenated lowercase UUID: 8-4-4-4-12 hexadecimal digits.
pub open spec fn is_hyphenated_uuid(s: Seq<char>) -> bool {
    &&& s.len() == 36
    &&& forall|i: int|
        0 <= i < 36 ==> if i == 8 || i == 13 || i == 18 || i == 23 {
            #[trigger] s[i] == '-'
        } else {
            ('0' <= s[i] <= '9') || ('a' <= s[i] <= 'f')
        }
}

/// A random (version 4, RFC 4122 variant) UUID in hyphenated lowercase
/// form: the version digit is `4`, the variant digit one of `8 9 a b`.
pub open spec fn is_uuid_v4(s: Seq<char>) -> bool {
    &&& is_hyphenated_uuid(s)
    &&& s[14] == '4'
    &&& (s[19] == '8' || s[19] == '9' || s[19] == 'a' || s[19] == 'b')
}

/// `uuid::Uuid::new_v4().to_string()`: a random UUID in its hyphenated
/// lowercase form; `new_v4` sets the version bits to 4 and the variant
/// bits to `10`. Which one it is rests on the random source.
#[verifier::external_body]
fn new_request_id() -> (id: String)
    ensures
        is_uuid_v4(id@),
{
    uuid::Uuid::new_v4().to_string()
}

pub open spec fn pairs_view(v: Seq<(String, String)>) -> Seq<(Seq<char>, Seq<char>)> {
    v.map_values(|p: (String, String)| (p.0@, p.1@))
}

/// The extra parameters of a speech request: the voice, then the speed
/// (as text), each when given.
pub open spec fn speech_extra(voice: Option<Seq<char>>, speed: Option<Seq<char>>) -> Seq<(Seq<char>, Seq<char>)> {
    let with_voice = match voice {
        Some(v) => seq![("voice"@, v)],
        None => Seq::empty(),
    };
    match speed {
        Some(s) => with_voice.push(("speed"@, s)),
        None => with_voice,
    }
}

pub open spec fn opt_str(o: Option<String>) -> Option<Seq<char>> {
    match o {
        Some(s) => Some(s@),
        None => None,
    }
}

/// The extra parameters of a speech request hold the voice exactly when
/// one is given and the speed exactly when one is given, each on its own:
/// one entry per given value, under its own key.
pub proof fn lemma_speech_extra_entries(voice: Option<Seq<char>>, speed: Option<Seq<char>>)
    ensures
        forall|v: Seq<char>| #[trigger] speech_extra(voice, speed).contains(("voice"@, v)) <==> voice
            == Some(v),
        forall|x: Seq<char>| #[trigger] speech_extra(voice, speed).contains(("speed"@, x)) <==> speed
            == Some(x),
        speech_extra(voice, speed).len() == (if voice is Some { 1int } else { 0int }) + (if speed is Some {
            1int
        } else {
            0int
        }),
{
    reveal_strlit("voice");
    reveal_strlit("speed");
    assert("voice"@ != "speed"@) by {
        assert("voice"@[0] != "speed"@[0]);
    }
    let e = speech_extra(voice, speed);
    assert forall|v: Seq<char>| #[trigger] e.contains(("voice"@, v)) <==> voice == Some(v) by {
        if voice == Some(v) {
            assert(e[0] == ("voice"@, v));
        }
        if e.contains(("voice"@, v)) {
            let i = choose|i: int| 0 <= i < e.len() && e[i] == ("voice"@, v);
            assert(voice is Some);
        }
    }
    assert forall|x: Seq<char>| #[trigger] e.contains(("speed"@, x)) <==> speed == Some(x) by {
        if speed == Some(x) {
            assert(e[e.len() - 1] == ("speed"@, x));
        }
        if e.contains(("speed"@, x)) {
            let i = choose|i: int| 0 <= i < e.len() && e[i] == ("speed"@, x);
            assert(speed is Some);
        }
    }
}

/// The router request that synthesizes speech for `input`, with an
/// optional voice and speed.
pub fn speech_request(input: String, voice: Option<String>, speed: Option<String>) -> (req: TaskRequest)
    ensures
        is_uuid_v4(req.request_id@),
        req.task_type == TaskType::Tts,
        req.input@ == input@,
        req.model_override is None,
        pairs_view(req.extra@) == speech_extra(opt_str(voice), opt_str(speed)),
{
    let ghost vv = opt_str(voice);
    let ghost sv = opt_str(speed);
    let mut extra: Vec<(String, String)> = Vec::new();
    match voice {
        Some(v) => extra.push((string_from("voice"), v)),
        None => {},
    }
    assert(pairs_view(extra@) =~= match vv {
        Some(v) => seq![("voice"@, v)],
        None => Seq::<(Seq<char>, Seq<char>)>::empty(),
    });
    let ghost before = extra@;
    match speed {
        Some(s) => {
            extra.push((string_from("speed"), s));
            assert(pairs_view(extra@) =~= pairs_view(before).push(("speed"@, sv->0)));
        },
        None => {},
    }
    TaskRequest {
        request_id: new_request_id(),
        task_type: TaskType::Tts,
        input,
        model_override: None,
        extra,
    }
}

/// The router request that transcribes the audio file at `audio_path`.
pub fn transcription_request(audio_path: String) -> (req: TaskRequest)
    ensures
        is_uuid_v4(req.request_id@),
        req.task_type == TaskType::Transcribe,
        req.input@ == audio_path@,
        req.model_override is None,
        req.extra@.len() == 0,
{
    TaskRequest {
        request_id: new_request_id(),
        task_type: TaskType::Transcribe,
        input: audio_path,
        model_override: None,
        extra: Vec::new(),
    }
}

/// Base64 makes four characters of every three bytes, the last group padded.
pub proof fn lemma_base64_len(d: Seq<u8>)
    ensures
        base64_std(d).len() == 4 * ((d.len() + 2) / 3),
    decreases d.len(),
{
    if d.len() >= 3 {
        lemma_base64_len(d.skip(3));
    }
}

} // verus!
