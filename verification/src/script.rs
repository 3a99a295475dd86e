//! Podcast script generation: the LLM prompt, and the dialogue JSON that
//! comes back from it.
use vstd::prelude::*;
use crate::text::{
    all_ws, append_str, byte_boundary, byte_prefix, byte_prefix_of, decimal, has_byte_boundary, is_ws,
    lemma_trim_surrounding_ws,
    push_decimal, str_chars, string_from, string_of, trim, trim_bounds, trim_end, trim_start,
};

verus! {

/// One spoken line of a podcast script.
#[derive(Debug)]
pub struct PodcastLine {
    pub speaker: String,
    pub voice: String,
    pub text: String,
    pub index: usize,
}

/// How a bracket changes the nesting depth.
pub open spec fn bracket_delta(c: char) -> int {
    if c == '[' {
        1
    } else if c == ']' {
        -1
    } else {
        0
    }
}

/// Net nesting depth after reading `s`: opening minus closing brackets.
pub open spec fn bracket_depth(s: Seq<char>) -> int
    decreases s.len(),
{
    if s.len() == 0 {
        0
    } else {
        bracket_depth(s.drop_last()) + bracket_delta(s.last())
    }
}

/// `i` is the first position of `c` in `s`.
pub open spec fn is_first_index(s: Seq<char>, c: char, i: int) -> bool {
    &&& 0 <= i < s.len()
    &&& s[i] == c
    &&& forall|j: int| 0 <= j < i ==> s[j] != c
}

/// `i` is the last position of `c` in `s`.
pub open spec fn is_last_index(s: Seq<char>, c: char, i: int) -> bool {
    &&& 0 <= i < s.len()
    &&& s[i] == c
    &&& forall|j: int| i < j < s.len() ==> s[j] != c
}

/// The brackets of `s[p..=q]` balance.
pub open spec fn balances_at(s: Seq<char>, p: int, q: int) -> bool {
    p <= q < s.len() && bracket_depth(s.subrange(p, q + 1)) == 0
}

/// `q` is the first position after `p` where the brackets opened at `p` balance.
pub open spec fn is_matching_close(s: Seq<char>, p: int, q: int) -> bool {
    &&& balances_at(s, p, q)
    &&& forall|k: int| p <= k < q ==> !#[trigger] balances_at(s, p, k)
}

/// The span `[start, end]` (both inclusive, character positions in the
/// trimmed text `t`) that `extract_json_array` returns, if any: from the first
/// `[` to the bracket that closes it, or else to the last `]` if that lies
/// after the first `[`.
pub open spec fn json_array_span(t: Seq<char>) -> Option<(int, int)> {
    if exists|p: int| is_first_index(t, '[', p) {
        let p = choose|p: int| is_first_index(t, '[', p);
        if exists|q: int| is_matching_close(t, p, q) {
            Some((p, choose|q: int| is_matching_close(t, p, q)))
        } else if exists|q: int| is_last_index(t, ']', q) && q > p {
            Some((p, choose|q: int| is_last_index(t, ']', q)))
        } else {
            None
        }
    } else {
        None
    }
}

/// What `extract_json_array` returns for the raw LLM output `raw`.
pub open spec fn spec_extract_json_array(raw: Seq<char>) -> Result<Seq<char>, Seq<char>> {
    let t = trim(raw);
    if t.len() == 0 {
        Err("LLM returned empty response"@)
    } else if !exists|p: int| is_first_index(t, '[', p) {
        Err("No JSON array found in LLM response (first 200 chars): "@ + byte_prefix(t, 200))
    } else {
        match json_array_span(t) {
            Some(span) => Ok(t.subrange(span.0, span.1 + 1)),
            None => Err("No closing bracket found in LLM response (first 200 chars): "@
                + byte_prefix(t, 200)),
        }
    }
}

/// The error messages of `extract_json_array` quote the first 200 bytes of
/// the trimmed text; that cut must fall on a character boundary.
pub open spec fn extract_json_array_ok(raw: Seq<char>) -> bool {
    spec_extract_json_array(raw) is Err && trim(raw).len() > 0 ==> byte_boundary(trim(raw), 200)
}

/// The views of a `Result<String, String>`.
pub open spec fn result_view(r: Result<String, String>) -> Result<Seq<char>, Seq<char>> {
    match r {
        Ok(s) => Ok(s@),
        Err(e) => Err(e@),
    }
}

/// Where the JSON array of a trimmed, non-empty text lies.
pub enum ArraySpan {
    /// No `[` at all.
    NoOpen,
    /// From the first `[` to the `]` at the second position, inclusive.
    Found(usize, usize),
    /// A `[`, but nothing closes it and no `]` follows it.
    NoClose,
}

/// Finds the JSON array in the trimmed text `t`.
fn locate_json_array(t: &Vec<char>) -> (r: ArraySpan)
    ensures
        match r {
            ArraySpan::NoOpen => !exists|p: int| is_first_index(t@, '[', p),
            ArraySpan::Found(p, q) => (exists|p: int| is_first_index(t@, '[', p)) && json_array_span(t@)
                == Some((p as int, q as int)) && p <= q < t@.len(),
            ArraySpan::NoClose => (exists|p: int| is_first_index(t@, '[', p)) && json_array_span(t@) is None,
        },
{
    let ghost tv = t@;
    // first '['
    let mut start: usize = 0;
    while start < t.len() && t[start] != '['
        invariant
            start <= tv.len(),
            t@ == tv,
            forall|j: int| 0 <= j < start ==> tv[j] != '[',
        decreases tv.len() - start,
    {
        start = start + 1;
    }
    if start == t.len() {
        return ArraySpan::NoOpen;
    }
    assert(is_first_index(tv, '[', start as int));
    proof {
        lemma_first_index_unique(tv, '[', start as int);
    }
    // scan for the bracket that closes it
    let mut depth: usize = 0;
    let mut i: usize = start;
    let mut found: bool = false;
    while i < t.len()
        invariant_except_break
            !found,
            i > start ==> depth == bracket_depth(tv.subrange(start as int, i as int)),
            i == start ==> depth == 0,
            i > start ==> depth >= 1,
            depth <= i - start,
        invariant
            start <= i <= tv.len(),
            t@ == tv,
            tv[start as int] == '[',
            forall|k: int| start <= k < i ==> !#[trigger] balances_at(tv, start as int, k),
        ensures
            found ==> i < tv.len() && balances_at(tv, start as int, i as int),
            !found ==> i == tv.len(),
        decreases tv.len() - i,
    {
        let c = t[i];
        proof {
            assert(tv.subrange(start as int, i + 1).drop_last() =~= tv.subrange(start as int, i as int));
            if i == start {
                assert(tv.subrange(start as int, i as int) =~= Seq::<char>::empty());
            }
            let sub = tv.subrange(start as int, i + 1);
            assert(sub.last() == c);
            assert(bracket_depth(sub) == bracket_depth(tv.subrange(start as int, i as int))
                + bracket_delta(c));
        }
        if c == '[' {
            depth = depth + 1;
        } else if c == ']' {
            depth = depth - 1;
            if depth == 0 {
                found = true;
                break;
            }
        }
        i = i + 1;
    }
    if found {
        assert(is_matching_close(tv, start as int, i as int));
        proof {
            lemma_matching_close_unique(tv, start as int, i as int);
        }
        return ArraySpan::Found(start, i);
    }
    assert(forall|q: int| !is_matching_close(tv, start as int, q)) by {
        assert forall|q: int| !is_matching_close(tv, start as int, q) by {
            if is_matching_close(tv, start as int, q) {
                assert(balances_at(tv, start as int, q));
            }
        }
    }
    // fallback: the last ']'
    let mut j: usize = t.len();
    while j > 0 && t[j - 1] != ']'
        invariant
            j <= tv.len(),
            t@ == tv,
            forall|k: int| j <= k < tv.len() ==> tv[k] != ']',
        decreases j,
    {
        j = j - 1;
    }
    if j > 0 && j - 1 > start {
        let end = j - 1;
        assert(is_last_index(tv, ']', end as int));
        proof {
            lemma_last_index_unique(tv, ']', end as int);
        }
        return ArraySpan::Found(start, end);
    }
    proof {
        if j > 0 {
            lemma_last_index_unique(tv, ']', j - 1);
        }
    }
    ArraySpan::NoClose
}

/// The error message for a text where no array was found: the reason and
/// the first 200 bytes of the trimmed text.
fn no_array_message(reason: &str, t: &Vec<char>) -> (m: String)
    requires
        byte_boundary(t@, 200),
    ensures
        m@ == reason@ + byte_prefix(t@, 200),
{
    let mut msg = string_from(reason);
    let prefix = byte_prefix_of(t, 200);
    append_str(&mut msg, prefix.as_str());
    msg
}

/// Extract a JSON array from potentially wrapped LLM output: raw JSON,
/// markdown fences, text before or after the array, nested brackets.
pub fn extract_json_array(raw: &str) -> (res: Result<String, String>)
    requires
        extract_json_array_ok(raw@),
    ensures
        result_view(res) == spec_extract_json_array(raw@),
{
    let all = str_chars(raw);
    let (lo, hi) = trim_bounds(&all);
    let t = vec_slice(&all, lo, hi);
    assert(t@ == trim(raw@));
    if t.len() == 0 {
        return Err(string_from("LLM returned empty response"));
    }
    match locate_json_array(&t) {
        ArraySpan::NoOpen => Err(no_array_message("No JSON array found in LLM response (first 200 chars): ", &t)),
        ArraySpan::Found(p, q) => Ok(string_of(&t, p, q + 1)),
        ArraySpan::NoClose => Err(no_array_message("No closing bracket found in LLM response (first 200 chars): ", &t)),
    }
}

/// `extract_json_array` where its error message can quote the first 200
/// bytes; `None` where that cut would split a character (slicing a `str`
/// there panics).
pub fn try_extract_json_array(raw: &str) -> (res: Option<Result<String, String>>)
    ensures
        res is None <==> !extract_json_array_ok(raw@),
        res matches Some(r) ==> result_view(r) == spec_extract_json_array(raw@),
{
    let all = str_chars(raw);
    let (lo, hi) = trim_bounds(&all);
    let t = vec_slice(&all, lo, hi);
    assert(t@ == trim(raw@));
    if t.len() == 0 {
        return Some(Err(string_from("LLM returned empty response")));
    }
    match locate_json_array(&t) {
        ArraySpan::Found(p, q) => Some(Ok(string_of(&t, p, q + 1))),
        _ => if has_byte_boundary(&t, 200) {
            Some(extract_json_array(raw))
        } else {
            None
        },
    }
}

proof fn lemma_first_index_unique(s: Seq<char>, c: char, i: int)
    requires
        is_first_index(s, c, i),
    ensures
        forall|j: int| is_first_index(s, c, j) ==> j == i,
{
}

proof fn lemma_last_index_unique(s: Seq<char>, c: char, i: int)
    requires
        is_last_index(s, c, i),
    ensures
        forall|j: int| is_last_index(s, c, j) ==> j == i,
{
}

proof fn lemma_matching_close_unique(s: Seq<char>, p: int, q: int)
    requires
        is_matching_close(s, p, q),
    ensures
        forall|r: int| is_matching_close(s, p, r) ==> r == q,
{
    assert forall|r: int| is_matching_close(s, p, r) implies r == q by {
        if r < q {
            assert(!balances_at(s, p, r));
        } else if r > q {
            assert(!balances_at(s, p, q));
        }
    }
}

/// `v[lo..hi]` as a vector.
fn vec_slice(v: &Vec<char>, lo: usize, hi: usize) -> (r: Vec<char>)
    requires
        lo <= hi <= v@.len(),
    ensures
        r@ == v@.subrange(lo as int, hi as int),
{
    let mut r: Vec<char> = Vec::new();
    let mut i = lo;
    while i < hi
        invariant
            lo <= i <= hi <= v@.len(),
            r@ == v@.subrange(lo as int, i as int),
        decreases hi - i,
    {
        r.push(v[i]);
        assert(v@.subrange(lo as int, i + 1) =~= v@.subrange(lo as int, i as int).push(v@[i as int]));
        i = i + 1;
    }
    r
}

/// The prompt that asks the LLM for a two-host dialogue about `query`,
/// grounded in `ctx`, as a JSON array of `{"speaker", "text"}` objects.
pub open spec fn script_prompt(
    query: Seq<char>,
    ctx: Seq<char>,
    a: Seq<char>,
    b: Seq<char>,
    max_turns: nat,
) -> Seq<char> {
    "Write a podcast dialogue between two hosts: "@ + a + " and "@ + b + ".\n\n"@ + a
        + " is the curious interviewer. "@ + b
        + " is the knowledgeable expert.\nWrite exactly "@ + decimal(max_turns)
        + " lines, alternating between "@ + a + " and "@ + b
        + ".\nBase ALL content on the CONTEXT below. Do not invent facts.\nKeep each line conversational, 1-3 sentences.\nStart with "@
        + a + " introducing the topic. End with "@ + b + " wrapping up.\n\nCONTEXT:\n"@ + ctx
        + "\n\nTOPIC: "@ + query
        + "\n\nRespond with ONLY a JSON array, no other text:\n[{\"speaker\":\""@ + a
        + "\",\"text\":\"...\"},{\"speaker\":\""@ + b + "\",\"text\":\"...\"}]"@
}

/// Build a single, self-contained prompt string for the LLM to generate a
/// podcast script (the backend wraps it in its own message structure).
pub fn build_script_prompt(
    query: &str,
    rag_context: &str,
    speaker_a: &str,
    speaker_b: &str,
    max_turns: usize,
) -> (prompt: String)
    ensures
        prompt@ == script_prompt(query@, rag_context@, speaker_a@, speaker_b@, max_turns as nat),
{
    let mut p = string_from("Write a podcast dialogue between two hosts: ");
    append_str(&mut p, speaker_a);
    append_str(&mut p, " and ");
    append_str(&mut p, speaker_b);
    append_str(&mut p, ".\n\n");
    append_str(&mut p, speaker_a);
    append_str(&mut p, " is the curious interviewer. ");
    append_str(&mut p, speaker_b);
    append_str(&mut p, " is the knowledgeable expert.\nWrite exactly ");
    push_decimal(&mut p, max_turns);
    append_str(&mut p, " lines, alternating between ");
    append_str(&mut p, speaker_a);
    append_str(&mut p, " and ");
    append_str(&mut p, speaker_b);
    append_str(
        &mut p,
        ".\nBase ALL content on the CONTEXT below. Do not invent facts.\nKeep each line conversational, 1-3 sentences.\nStart with ",
    );
    append_str(&mut p, speaker_a);
    append_str(&mut p, " introducing the topic. End with ");
    append_str(&mut p, speaker_b);
    append_str(&mut p, " wrapping up.\n\nCONTEXT:\n");
    append_str(&mut p, rag_context);
    append_str(&mut p, "\n\nTOPIC: ");
    append_str(&mut p, query);
    append_str(&mut p, "\n\nRespond with ONLY a JSON array, no other text:\n[{\"speaker\":\"");
    append_str(&mut p, speaker_a);
    append_str(&mut p, "\",\"text\":\"...\"},{\"speaker\":\"");
    append_str(&mut p, speaker_b);
    append_str(&mut p, "\",\"text\":\"...\"}]");
    p
}

/// The view of a script line: who speaks, with which voice, what, and where.
pub struct LineSpec {
    pub speaker: Seq<char>,
    pub voice: Seq<char>,
    pub text: Seq<char>,
    pub index: nat,
}

impl View for PodcastLine {
    type V = LineSpec;

    open spec fn view(&self) -> LineSpec {
        LineSpec {
            speaker: self.speaker@,
            voice: self.voice@,
            text: self.text@,
            index: self.index as nat,
        }
    }
}

/// A dialogue entry of the script JSON: its `speaker` and `text` members,
/// each present only when it is a JSON string.
#[derive(Debug)]
pub struct ScriptEntry {
    pub speaker: Option<String>,
    pub text: Option<String>,
}

/// The plain view of an optional string.
pub open spec fn opt_view(o: Option<String>) -> Option<Seq<char>> {
    match o {
        Some(s) => Some(s@),
        None => None,
    }
}

/// The plain view of a script entry.
pub open spec fn entry_view(e: ScriptEntry) -> (Option<Seq<char>>, Option<Seq<char>>) {
    (opt_view(e.speaker), opt_view(e.text))
}

/// The plain view of the script JSON parser's result.
pub open spec fn entries_view(r: Result<Vec<ScriptEntry>, String>) -> Result<
    Seq<(Option<Seq<char>>, Option<Seq<char>>)>,
    Seq<char>,
> {
    match r {
        Ok(v) => Ok(v@.map_values(|e: ScriptEntry| entry_view(e))),
        Err(e) => Err(e@),
    }
}

/// What `serde_json::from_str::<Vec<serde_json::Value>>` makes of `json`:
/// on success, for each element of the array, its `"speaker"` and `"text"`
/// members when they are JSON strings; on failure, the parser's error message.
pub uninterp spec fn json_script_entries(json: Seq<char>) -> Result<
    Seq<(Option<Seq<char>>, Option<Seq<char>>)>,
    Seq<char>,
>;

/// Parses `json` with `serde_json::from_str` into a `Vec<serde_json::Value>`
/// and reads, from each element, `value["speaker"].as_str()` and
/// `value["text"].as_str()`; an error is rendered with its `Display`.
/// The result is the name `json_script_entries` of the input; nothing more
/// is claimed of serde_json's grammar.
#[verifier::external_body]
fn parse_script_json(json: &str) -> (res: Result<Vec<ScriptEntry>, String>)
    ensures
        entries_view(res) == json_script_entries(json@),
{
    match serde_json::from_str::<Vec<serde_json::Value>>(json) {
        Ok(values) => Ok(values.iter().map(|v| ScriptEntry {
            speaker: v["speaker"].as_str().map(|s| s.to_string()),
            text: v["text"].as_str().map(|s| s.to_string()),
        }).collect()),
        Err(e) => Err(e.to_string()),
    }
}

/// The voice for a speaker: `voice_a` for `speaker_a`, `voice_b` for
/// `speaker_b`, and `voice_a` for anyone else.
pub open spec fn voice_for(
    speaker: Seq<char>,
    a: Seq<char>,
    b: Seq<char>,
    va: Seq<char>,
    vb: Seq<char>,
) -> Seq<char> {
    if speaker == a {
        va
    } else if speaker == b {
        vb
    } else {
        va
    }
}

/// The lines made of the first `n` entries, or the error of the first entry
/// among them that lacks a speaker or a text.
pub open spec fn lines_prefix(
    es: Seq<(Option<Seq<char>>, Option<Seq<char>>)>,
    n: nat,
    a: Seq<char>,
    b: Seq<char>,
    va: Seq<char>,
    vb: Seq<char>,
) -> Result<Seq<LineSpec>, Seq<char>>
    decreases n,
{
    if n == 0 {
        Ok(Seq::empty())
    } else {
        let i = (n - 1) as nat;
        match lines_prefix(es, i, a, b, va, vb) {
            Err(e) => Err(e),
            Ok(ls) => match es[i as int].0 {
                None => Err("Missing 'speaker' at line "@ + decimal(i)),
                Some(sp) => match es[i as int].1 {
                    None => Err("Missing 'text' at line "@ + decimal(i)),
                    Some(t) => Ok(
                        ls.push(LineSpec { speaker: sp, voice: voice_for(sp, a, b, va, vb), text: t, index: i }),
                    ),
                },
            },
        }
    }
}

/// The script lines for the parsed entries `es`.
pub open spec fn spec_script_lines(
    es: Seq<(Option<Seq<char>>, Option<Seq<char>>)>,
    a: Seq<char>,
    b: Seq<char>,
    va: Seq<char>,
    vb: Seq<char>,
) -> Result<Seq<LineSpec>, Seq<char>> {
    if es.len() == 0 {
        Err("LLM returned an empty script"@)
    } else {
        lines_prefix(es, es.len(), a, b, va, vb)
    }
}

/// The view of a list of script lines, or of its error.
pub open spec fn lines_result_view(r: Result<Vec<PodcastLine>, String>) -> Result<
    Seq<LineSpec>,
    Seq<char>,
> {
    match r {
        Ok(v) => Ok(v@.map_values(|l: PodcastLine| l@)),
        Err(e) => Err(e@),
    }
}

/// Turns the parsed dialogue entries into script lines: each needs a
/// `speaker` and a `text`, and the speaker chooses the voice.
pub fn script_lines(
    entries: &Vec<ScriptEntry>,
    speaker_a: &str,
    speaker_b: &str,
    voice_a: &str,
    voice_b: &str,
) -> (res: Result<Vec<PodcastLine>, String>)
    ensures
        lines_result_view(res) == spec_script_lines(
            entries@.map_values(|e: ScriptEntry| entry_view(e)),
            speaker_a@,
            speaker_b@,
            voice_a@,
            voice_b@,
        ),
{
    let ghost es = entries@.map_values(|e: ScriptEntry| entry_view(e));
    if entries.len() == 0 {
        return Err(string_from("LLM returned an empty script"));
    }
    let mut lines: Vec<PodcastLine> = Vec::new();
    let mut i: usize = 0;
    assert(lines@.map_values(|l: PodcastLine| l@) =~= Seq::<LineSpec>::empty());
    while i < entries.len()
        invariant
            0 <= i <= entries@.len(),
            es == entries@.map_values(|e: ScriptEntry| entry_view(e)),
            lines_prefix(es, i as nat, speaker_a@, speaker_b@, voice_a@, voice_b@) == Ok::<
                Seq<LineSpec>,
                Seq<char>,
            >(lines@.map_values(|l: PodcastLine| l@)),
        decreases entries@.len() - i,
    {
        let entry = &entries[i];
        assert(es[i as int] == entry_view(*entry));
        let speaker = match &entry.speaker {
            Some(s) => s.clone(),
            None => {
                let mut msg = string_from("Missing 'speaker' at line ");
                push_decimal(&mut msg, i);
                proof {
                    lemma_lines_prefix_err_keeps(es, (i + 1) as nat, es.len(), speaker_a@, speaker_b@, voice_a@, voice_b@);
                }
                return Err(msg);
            },
        };
        let text = match &entry.text {
            Some(t) => t.clone(),
            None => {
                let mut msg = string_from("Missing 'text' at line ");
                push_decimal(&mut msg, i);
                proof {
                    lemma_lines_prefix_err_keeps(es, (i + 1) as nat, es.len(), speaker_a@, speaker_b@, voice_a@, voice_b@);
                }
                return Err(msg);
            },
        };
        let voice = if str_eq(speaker.as_str(), speaker_a) {
            string_from(voice_a)
        } else if str_eq(speaker.as_str(), speaker_b) {
            string_from(voice_b)
        } else {
            string_from(voice_a)
        };
        let line = PodcastLine { speaker, voice, text, index: i };
        let ghost before = lines@;
        lines.push(line);
        assert(lines@.map_values(|l: PodcastLine| l@) =~= before.map_values(|l: PodcastLine| l@).push(line@));
        i = i + 1;
    }
    Ok(lines)
}

/// Once the first `m` entries hold an error, every longer prefix keeps it.
proof fn lemma_lines_prefix_err_keeps(
    es: Seq<(Option<Seq<char>>, Option<Seq<char>>)>,
    m: nat,
    n: nat,
    a: Seq<char>,
    b: Seq<char>,
    va: Seq<char>,
    vb: Seq<char>,
)
    requires
        m <= n,
        lines_prefix(es, m, a, b, va, vb) is Err,
    ensures
        lines_prefix(es, n, a, b, va, vb) == lines_prefix(es, m, a, b, va, vb),
    decreases n - m,
{
    if m < n {
        lemma_lines_prefix_err_keeps(es, m, (n - 1) as nat, a, b, va, vb);
    }
}

/// String equality by characters.
pub fn str_eq(x: &str, y: &str) -> (b: bool)
    ensures
        b == (x@ == y@),
{
    let xv = str_chars(x);
    let yv = str_chars(y);
    if xv.len() != yv.len() {
        return false;
    }
    let mut i: usize = 0;
    while i < xv.len()
        invariant
            xv@ == x@,
            yv@ == y@,
            xv@.len() == yv@.len(),
            0 <= i <= xv@.len(),
            forall|j: int| 0 <= j < i ==> xv@[j] == yv@[j],
        decreases xv@.len() - i,
    {
        if xv[i] != yv[i] {
            return false;
        }
        i = i + 1;
    }
    assert(xv@ =~= yv@);
    true
}

/// What `parse_script_response` returns once the JSON text has been
/// extracted and parsed.
pub open spec fn spec_script_from_json(
    json: Seq<char>,
    parsed: Result<Seq<(Option<Seq<char>>, Option<Seq<char>>)>, Seq<char>>,
    a: Seq<char>,
    b: Seq<char>,
    va: Seq<char>,
    vb: Seq<char>,
) -> Result<Seq<LineSpec>, Seq<char>> {
    match parsed {
        Err(e) => Err("Failed to parse script JSON: "@ + e + "\nExtracted: "@ + byte_prefix(json, 200)),
        Ok(es) => spec_script_lines(es, a, b, va, vb),
    }
}

/// The script lines for the extracted JSON text `json`, given what the JSON
/// parser made of it; a parse error quotes the first 200 bytes of `json`.
pub fn script_from_json(
    json: &str,
    parsed: Result<Vec<ScriptEntry>, String>,
    speaker_a: &str,
    speaker_b: &str,
    voice_a: &str,
    voice_b: &str,
) -> (res: Result<Vec<PodcastLine>, String>)
    requires
        parsed is Err ==> byte_boundary(json@, 200),
    ensures
        lines_result_view(res) == spec_script_from_json(
            json@,
            entries_view(parsed),
            speaker_a@,
            speaker_b@,
            voice_a@,
            voice_b@,
        ),
{
    match parsed {
        Err(e) => {
            let mut msg = string_from("Failed to parse script JSON: ");
            append_str(&mut msg, e.as_str());
            append_str(&mut msg, "\nExtracted: ");
            let jv = str_chars(json);
            let prefix = byte_prefix_of(&jv, 200);
            append_str(&mut msg, prefix.as_str());
            Err(msg)
        },
        Ok(entries) => script_lines(&entries, speaker_a, speaker_b, voice_a, voice_b),
    }
}

/// What `parse_script_response` returns for the raw LLM output `raw`.
pub open spec fn spec_parse_script_response(
    raw: Seq<char>,
    a: Seq<char>,
    b: Seq<char>,
    va: Seq<char>,
    vb: Seq<char>,
) -> Result<Seq<LineSpec>, Seq<char>> {
    match spec_extract_json_array(raw) {
        Err(e) => Err(e),
        Ok(json) => spec_script_from_json(json, json_script_entries(json), a, b, va, vb),
    }
}

/// Parse the raw LLM response into script lines, handling markdown-wrapped
/// JSON and text around the array. The quoted prefixes of the error
/// messages must fall on character boundaries.
pub fn parse_script_response(
    raw_response: &str,
    speaker_a: &str,
    speaker_b: &str,
    voice_a: &str,
    voice_b: &str,
) -> (res: Result<Vec<PodcastLine>, String>)
    requires
        extract_json_array_ok(raw_response@),
        spec_extract_json_array(raw_response@) matches Ok(json) ==> (json_script_entries(json) is Err
            ==> byte_boundary(json, 200)),
    ensures
        lines_result_view(res) == spec_parse_script_response(
            raw_response@,
            speaker_a@,
            speaker_b@,
            voice_a@,
            voice_b@,
        ),
{
    let json = match extract_json_array(raw_response) {
        Ok(j) => j,
        Err(e) => return Err(e),
    };
    let parsed = parse_script_json(json.as_str());
    script_from_json(json.as_str(), parsed, speaker_a, speaker_b, voice_a, voice_b)
}

/// `parse_script_response` where its quoted error prefixes are well
/// placed; `None` where a 200-byte cut of an error message would split a
/// character (slicing a `str` there panics).
pub fn try_parse_script_response(
    raw_response: &str,
    speaker_a: &str,
    speaker_b: &str,
    voice_a: &str,
    voice_b: &str,
) -> (res: Option<Result<Vec<PodcastLine>, String>>)
    ensures
        res is None <==> !extract_json_array_ok(raw_response@) || (spec_extract_json_array(
            raw_response@,
        ) matches Ok(json) && json_script_entries(json) is Err && !byte_boundary(json, 200)),
        res matches Some(r) ==> lines_result_view(r) == spec_parse_script_response(
            raw_response@,
            speaker_a@,
            speaker_b@,
            voice_a@,
            voice_b@,
        ),
{
    match try_extract_json_array(raw_response) {
        None => None,
        Some(Err(e)) => Some(Err(e)),
        Some(Ok(json)) => {
            let parsed = parse_script_json(json.as_str());
            let jv = str_chars(json.as_str());
            if parsed.is_err() && !has_byte_boundary(&jv, 200) {
                None
            } else {
                Some(parse_script_response(raw_response, speaker_a, speaker_b, voice_a, voice_b))
            }
        },
    }
}

/// What `extract_json_array` returns is an array: it starts with `[`, ends
/// with `]`, and is a contiguous part of the trimmed response.
pub proof fn lemma_extracted_array_is_bracketed(raw: Seq<char>)
    requires
        spec_extract_json_array(raw) is Ok,
    ensures
        spec_extract_json_array(raw) matches Ok(r) && r.len() >= 2 && r[0] == '[' && r.last() == ']'
            && exists|i: int| 0 <= i && i + r.len() <= trim(raw).len() && #[trigger] trim(raw).subrange(
            i,
            i + r.len(),
        ) == r,
{
    let t = trim(raw);
    let p = choose|p: int| is_first_index(t, '[', p);
    let span = json_array_span(t)->0;
    if exists|q: int| is_matching_close(t, p, q) {
        let q = choose|q: int| is_matching_close(t, p, q);
        assert(span == (p, q));
        // the span closes after it opens: one character alone does not balance
        if q == p {
            assert(t.subrange(p, p + 1).drop_last() =~= Seq::<char>::empty());
            assert(bracket_depth(Seq::<char>::empty()) == 0);
            assert(t.subrange(p, p + 1).last() == '[');
            assert(bracket_depth(t.subrange(p, p + 1)) == 1);
        }
        let r = t.subrange(p, q + 1);
        assert(r[0] == '[');
        // balance at q needs a closing bracket last
        assert(r.drop_last() =~= t.subrange(p, q));
        if t[q] != ']' {
            lemma_depth_positive_before_close(t, p, q);
        }
        assert(t.subrange(p, p + r.len()) == r);
    } else {
        let q = choose|q: int| is_last_index(t, ']', q) && q > p;
        assert(span == (p, choose|q: int| is_last_index(t, ']', q)));
        lemma_last_index_unique(t, ']', q);
        let r = t.subrange(p, q + 1);
        assert(t.subrange(p, p + r.len()) == r);
    }
}

/// Before any balance point, the brackets opened at `p` keep the depth at
/// least one; so a balance is reached only on a closing bracket.
proof fn lemma_depth_positive_before_close(t: Seq<char>, p: int, q: int)
    requires
        is_matching_close(t, p, q),
        0 <= p,
        t[p] == '[',
    ensures
        t[q] == ']',
{
    lemma_depth_positive(t, p, q);
    assert(t.subrange(p, q + 1).drop_last() =~= t.subrange(p, q));
    assert(t.subrange(p, q + 1).last() == t[q]);
    if q == p {
        assert(t.subrange(p, p) =~= Seq::<char>::empty());
        assert(bracket_depth(Seq::<char>::empty()) == 0);
    } else {
        assert(bracket_depth(t.subrange(p, q)) >= 1);
    }
}

/// Between `p` and a first balance point `q`, every earlier prefix has a
/// positive depth.
proof fn lemma_depth_positive(t: Seq<char>, p: int, q: int)
    requires
        is_matching_close(t, p, q),
        0 <= p,
        t[p] == '[',
    ensures
        forall|k: int| p < k <= q ==> bracket_depth(#[trigger] t.subrange(p, k)) >= 1,
{
    assert forall|k: int| p < k <= q implies bracket_depth(#[trigger] t.subrange(p, k)) >= 1 by {
        lemma_depth_positive_at(t, p, q, k);
    }
}

proof fn lemma_depth_positive_at(t: Seq<char>, p: int, q: int, k: int)
    requires
        is_matching_close(t, p, q),
        0 <= p,
        t[p] == '[',
        p < k <= q,
    ensures
        bracket_depth(t.subrange(p, k)) >= 1,
    decreases k - p,
{
    let s = t.subrange(p, k);
    assert(s.drop_last() =~= t.subrange(p, k - 1));
    assert(s.last() == t[k - 1]);
    if k == p + 1 {
        assert(t.subrange(p, p) =~= Seq::<char>::empty());
        assert(bracket_depth(Seq::<char>::empty()) == 0);
    } else {
        lemma_depth_positive_at(t, p, q, k - 1);
        // not balanced at k - 1 (k - 1 < q), and one step changes depth by at most one
        assert(!balances_at(t, p, k - 1));
    }
}

/// Line `i` comes from entry `i`: same index, speaker and text, and the
/// voice of speaker A (for A and for unknown speakers) or of speaker B.
pub open spec fn lines_follow_entries(
    ls: Seq<LineSpec>,
    es: Seq<(Option<Seq<char>>, Option<Seq<char>>)>,
    a: Seq<char>,
    b: Seq<char>,
    va: Seq<char>,
    vb: Seq<char>,
) -> bool {
    &&& ls.len() == es.len()
    &&& forall|i: int|
        0 <= i < ls.len() ==> {
            &&& (#[trigger] ls[i]).index == i
            &&& es[i].0 == Some(ls[i].speaker)
            &&& es[i].1 == Some(ls[i].text)
            &&& (ls[i].voice == va || ls[i].voice == vb)
            &&& (ls[i].speaker == a ==> ls[i].voice == va)
            &&& (ls[i].speaker == b && ls[i].speaker != a ==> ls[i].voice == vb)
        }
}

/// The lines of a parsed script follow its entries one for one: line `i`
/// has index `i`, the speaker and text of entry `i`, and the voice of
/// speaker A or B.
pub proof fn lemma_script_lines_shape(
    es: Seq<(Option<Seq<char>>, Option<Seq<char>>)>,
    a: Seq<char>,
    b: Seq<char>,
    va: Seq<char>,
    vb: Seq<char>,
)
    requires
        spec_script_lines(es, a, b, va, vb) is Ok,
    ensures
        es.len() > 0,
        lines_follow_entries(spec_script_lines(es, a, b, va, vb)->Ok_0, es, a, b, va, vb),
{
    assert(spec_script_lines(es, a, b, va, vb) == lines_prefix(es, es.len(), a, b, va, vb));
    lemma_lines_prefix_shape(es, es.len(), a, b, va, vb);
    assert(es.take(es.len() as int) =~= es);
}

proof fn lemma_lines_prefix_shape(
    es: Seq<(Option<Seq<char>>, Option<Seq<char>>)>,
    n: nat,
    a: Seq<char>,
    b: Seq<char>,
    va: Seq<char>,
    vb: Seq<char>,
)
    requires
        n <= es.len(),
        lines_prefix(es, n, a, b, va, vb) is Ok,
    ensures
        lines_follow_entries(lines_prefix(es, n, a, b, va, vb)->Ok_0, es.take(n as int), a, b, va, vb),
    decreases n,
{
    if n > 0 {
        let i = (n - 1) as nat;
        if lines_prefix(es, i, a, b, va, vb) is Err {
            assert(lines_prefix(es, n, a, b, va, vb) is Err);
        }
        lemma_lines_prefix_shape(es, i, a, b, va, vb);
        let prev = lines_prefix(es, i, a, b, va, vb)->Ok_0;
        let ls = lines_prefix(es, n, a, b, va, vb)->Ok_0;
        assert forall|k: int| 0 <= k < ls.len() implies {
            &&& (#[trigger] ls[k]).index == k
            &&& es.take(n as int)[k].0 == Some(ls[k].speaker)
            &&& es.take(n as int)[k].1 == Some(ls[k].text)
            &&& (ls[k].voice == va || ls[k].voice == vb)
            &&& (ls[k].speaker == a ==> ls[k].voice == va)
            &&& (ls[k].speaker == b && ls[k].speaker != a ==> ls[k].voice == vb)
        } by {
            if k < i {
                assert(ls[k] == prev[k]);
                assert(es.take(n as int)[k] == es.take(i as int)[k]);
            }
        }
    } else {
        assert(lines_prefix(es, 0, a, b, va, vb)->Ok_0 =~= Seq::<LineSpec>::empty());
    }
}

/// When a bracket closes the first `[` of the trimmed response, what
/// `extract_json_array` returns is the balanced array that it closes: its
/// brackets balance, and no shorter piece of it does.
pub proof fn lemma_extracted_array_balances(raw: Seq<char>, p: int, q: int)
    requires
        is_first_index(trim(raw), '[', p),
        is_matching_close(trim(raw), p, q),
    ensures
        spec_extract_json_array(raw) matches Ok(r) && bracket_depth(r) == 0 && forall|k: int|
            0 < k < r.len() ==> bracket_depth(#[trigger] r.take(k)) >= 1,
{
    let t = trim(raw);
    lemma_first_index_unique(t, '[', p);
    lemma_matching_close_unique(t, p, q);
    lemma_depth_positive(t, p, q);
    let r = t.subrange(p, q + 1);
    let pc = choose|p2: int| is_first_index(t, '[', p2);
    assert(pc == p);
    let qc = choose|q2: int| is_matching_close(t, pc, q2);
    assert(qc == q);
    assert(json_array_span(t) == Some((p, q)));
    assert(spec_extract_json_array(raw) == Ok::<Seq<char>, Seq<char>>(r));
    assert forall|k: int| 0 < k < r.len() implies bracket_depth(#[trigger] r.take(k)) >= 1 by {
        assert(r.take(k) =~= t.subrange(p, p + k));
    }
}

/// Whitespace around an LLM reply changes nothing: the same array is
/// extracted, or the same error given, and the same replies are accepted.
pub proof fn lemma_extract_ignores_surrounding_ws(w1: Seq<char>, raw: Seq<char>, w2: Seq<char>)
    requires
        all_ws(w1),
        all_ws(w2),
    ensures
        spec_extract_json_array(w1 + raw + w2) == spec_extract_json_array(raw),
        extract_json_array_ok(w1 + raw + w2) == extract_json_array_ok(raw),
{
    lemma_trim_surrounding_ws(w1, raw, w2);
}

/// A sequence that starts and ends with a non-whitespace character is its
/// own trim.
proof fn lemma_trim_unchanged(s: Seq<char>)
    requires
        s.len() > 0,
        !is_ws(s[0]),
        !is_ws(s.last()),
    ensures
        trim(s) == s,
{
    assert(trim_start(s) == s);
    assert(trim_end(s) == s);
}

/// Extracting again from an extracted array gives it back unchanged.
pub proof fn lemma_extract_idempotent(raw: Seq<char>)
    requires
        spec_extract_json_array(raw) is Ok,
    ensures
        spec_extract_json_array(spec_extract_json_array(raw)->Ok_0) == spec_extract_json_array(raw),
{
    lemma_extracted_array_is_bracketed(raw);
    let t = trim(raw);
    let r = spec_extract_json_array(raw)->Ok_0;
    reveal_strlit("[");
    lemma_trim_unchanged(r);
    assert(is_first_index(r, '[', 0));
    lemma_first_index_unique(r, '[', 0);
    let p = choose|p: int| is_first_index(t, '[', p);
    lemma_first_index_unique(t, '[', p);
    let span = json_array_span(t)->0;
    assert(span.0 == p);
    assert(r == t.subrange(p, span.1 + 1));
    // balance points of r from 0 are those of t from p, shifted
    assert forall|k: int| 0 <= k < r.len() implies #[trigger] balances_at(r, 0, k) == balances_at(t, p, p + k) by {
        assert(r.subrange(0, k + 1) =~= t.subrange(p, p + k + 1));
    }
    if exists|q: int| is_matching_close(t, p, q) {
        let q = choose|q: int| is_matching_close(t, p, q);
        lemma_matching_close_unique(t, p, q);
        assert(span.1 == q);
        let k = q - p;
        assert(balances_at(r, 0, k));
        assert forall|j: int| 0 <= j < k implies !#[trigger] balances_at(r, 0, j) by {
            assert(!balances_at(t, p, p + j));
        }
        assert(is_matching_close(r, 0, k));
        lemma_matching_close_unique(r, 0, k);
        assert(r.subrange(0, k + 1) =~= r);
        assert(trim(r).len() > 0);
        assert(exists|p2: int| is_first_index(trim(r), '[', p2));
        let pc = choose|p2: int| is_first_index(r, '[', p2);
        assert(pc == 0);
        assert(exists|q2: int| is_matching_close(r, pc, q2));
        let qc = choose|q2: int| is_matching_close(r, pc, q2);
        assert(qc == k);
        assert(json_array_span(r) == Some((0int, k)));
        assert(spec_extract_json_array(r) == Ok::<Seq<char>, Seq<char>>(r));
    } else {
        assert forall|k: int| !is_matching_close(r, 0, k) by {
            if is_matching_close(r, 0, k) {
                assert(is_matching_close(t, p, p + k)) by {
                    assert forall|j: int| p <= j < p + k implies !#[trigger] balances_at(t, p, j) by {
                        assert(!balances_at(r, 0, j - p));
                    }
                }
            }
        }
        let e = r.len() - 1;
        assert(is_last_index(r, ']', e));
        lemma_last_index_unique(r, ']', e);
        assert(r.subrange(0, e + 1) =~= r);
        assert(trim(r).len() > 0);
        assert(exists|p2: int| is_first_index(trim(r), '[', p2));
        assert(exists|q: int| is_last_index(r, ']', q) && q > 0);
        assert(json_array_span(r) == Some((0int, e)));
        assert(spec_extract_json_array(r) == Ok::<Seq<char>, Seq<char>>(r));
    }
}


/// No square bracket occurs in `s`.
pub open spec fn bracket_free(s: Seq<char>) -> bool {
    forall|i: int| 0 <= i < s.len() ==> #[trigger] s[i] != '[' && s[i] != ']'
}

/// The JSON example that the script prompt ends with.
pub open spec fn prompt_example(a: Seq<char>, b: Seq<char>) -> Seq<char> {
    "["@ + prompt_example_inner(a, b) + "]"@
}

/// The JSON example without its outer brackets.
pub open spec fn prompt_example_inner(a: Seq<char>, b: Seq<char>) -> Seq<char> {
    "{\"speaker\":\""@ + a + "\",\"text\":\"...\"},{\"speaker\":\""@ + b + "\",\"text\":\"...\"}"@
}

proof fn lemma_bracket_free_concat(x: Seq<char>, y: Seq<char>)
    requires
        bracket_free(x),
        bracket_free(y),
    ensures
        bracket_free(x + y),
{
    assert forall|i: int| 0 <= i < (x + y).len() implies #[trigger] (x + y)[i] != '[' && (x + y)[i] != ']' by {
        if i < x.len() {
            assert((x + y)[i] == x[i]);
        } else {
            assert((x + y)[i] == y[i - x.len()]);
        }
    }
}

proof fn lemma_depth_concat(x: Seq<char>, y: Seq<char>)
    ensures
        bracket_depth(x + y) == bracket_depth(x) + bracket_depth(y),
    decreases y.len(),
{
    if y.len() == 0 {
        assert(x + y =~= x);
    } else {
        assert((x + y).drop_last() =~= x + y.drop_last());
        assert((x + y).last() == y.last());
        lemma_depth_concat(x, y.drop_last());
    }
}

proof fn lemma_depth_bracket_free(x: Seq<char>)
    requires
        bracket_free(x),
    ensures
        bracket_depth(x) == 0,
    decreases x.len(),
{
    if x.len() > 0 {
        assert(bracket_free(x.drop_last())) by {
            assert forall|i: int| 0 <= i < x.drop_last().len() implies #[trigger] x.drop_last()[i] != '['
                && x.drop_last()[i] != ']' by {
                assert(x.drop_last()[i] == x[i]);
            }
        }
        lemma_depth_bracket_free(x.drop_last());
        assert(x.last() == x[x.len() - 1]);
    }
}

proof fn lemma_decimal_bracket_free(n: nat)
    ensures
        bracket_free(decimal(n)),
    decreases n,
{
    if n >= 10 {
        lemma_decimal_bracket_free(n / 10);
        let d = decimal(n);
        assert forall|i: int| 0 <= i < d.len() implies #[trigger] d[i] != '[' && d[i] != ']' by {
            if i < d.len() - 1 {
                assert(d[i] == decimal(n / 10)[i]);
            }
        }
    }
}

/// The script prompt without its closing JSON example.
spec fn prompt_head(query: Seq<char>, ctx: Seq<char>, a: Seq<char>, b: Seq<char>, n: nat) -> Seq<char> {
    "Write a podcast dialogue between two hosts: "@ + a + " and "@ + b + ".\n\n"@ + a
        + " is the curious interviewer. "@ + b
        + " is the knowledgeable expert.\nWrite exactly "@ + decimal(n)
        + " lines, alternating between "@ + a + " and "@ + b
        + ".\nBase ALL content on the CONTEXT below. Do not invent facts.\nKeep each line conversational, 1-3 sentences.\nStart with "@
        + a + " introducing the topic. End with "@ + b + " wrapping up.\n\nCONTEXT:\n"@ + ctx
        + "\n\nTOPIC: "@ + query + "\n\nRespond with ONLY a JSON array, no other text:\n"@
}

proof fn lemma_prompt_split(query: Seq<char>, ctx: Seq<char>, a: Seq<char>, b: Seq<char>, n: nat)
    ensures
        script_prompt(query, ctx, a, b, n) == prompt_head(query, ctx, a, b, n) + prompt_example(a, b),
{
    reveal_strlit("\n\nRespond with ONLY a JSON array, no other text:\n[{\"speaker\":\"");
    reveal_strlit("\n\nRespond with ONLY a JSON array, no other text:\n");
    reveal_strlit("[");
    reveal_strlit("{\"speaker\":\"");
    reveal_strlit("\",\"text\":\"...\"},{\"speaker\":\"");
    reveal_strlit("\",\"text\":\"...\"}]");
    reveal_strlit("\",\"text\":\"...\"}");
    reveal_strlit("]");
    assert("\n\nRespond with ONLY a JSON array, no other text:\n[{\"speaker\":\""@
        =~= "\n\nRespond with ONLY a JSON array, no other text:\n"@ + "["@ + "{\"speaker\":\""@);
    assert("\",\"text\":\"...\"}]"@ =~= "\",\"text\":\"...\"}"@ + "]"@);
    assert(script_prompt(query, ctx, a, b, n) =~= prompt_head(query, ctx, a, b, n) + prompt_example(a, b));
}

proof fn lemma_prompt_head_bracket_free(query: Seq<char>, ctx: Seq<char>, a: Seq<char>, b: Seq<char>, n: nat)
    requires
        bracket_free(query),
        bracket_free(ctx),
        bracket_free(a),
        bracket_free(b),
    ensures
        bracket_free(prompt_head(query, ctx, a, b, n)),
        prompt_head(query, ctx, a, b, n).len() > 0,
        prompt_head(query, ctx, a, b, n)[0] == 'W',
{
    let l0 = "Write a podcast dialogue between two hosts: "@;
    let l1 = " and "@;
    let l2 = ".\n\n"@;
    let l3 = " is the curious interviewer. "@;
    let l4 = " is the knowledgeable expert.\nWrite exactly "@;
    let l5 = " lines, alternating between "@;
    let l6 = ".\nBase ALL content on the CONTEXT below. Do not invent facts.\nKeep each line conversational, 1-3 sentences.\nStart with "@;
    let l7 = " introducing the topic. End with "@;
    let l8 = " wrapping up.\n\nCONTEXT:\n"@;
    let l9 = "\n\nTOPIC: "@;
    let l10 = "\n\nRespond with ONLY a JSON array, no other text:\n"@;
    reveal_strlit("Write a podcast dialogue between two hosts: ");
    reveal_strlit(" and ");
    reveal_strlit(".\n\n");
    reveal_strlit(" is the curious interviewer. ");
    reveal_strlit(" is the knowledgeable expert.\nWrite exactly ");
    reveal_strlit(" lines, alternating between ");
    reveal_strlit(".\nBase ALL content on the CONTEXT below. Do not invent facts.\nKeep each line conversational, 1-3 sentences.\nStart with ");
    reveal_strlit(" introducing the topic. End with ");
    reveal_strlit(" wrapping up.\n\nCONTEXT:\n");
    reveal_strlit("\n\nTOPIC: ");
    reveal_strlit("\n\nRespond with ONLY a JSON array, no other text:\n");
    assert(bracket_free(l0));
    assert(bracket_free(l1));
    assert(bracket_free(l2));
    assert(bracket_free(l3));
    assert(bracket_free(l4));
    assert(bracket_free(l5));
    assert(bracket_free(l6));
    assert(bracket_free(l7));
    assert(bracket_free(l8));
    assert(bracket_free(l9));
    assert(bracket_free(l10));
    lemma_decimal_bracket_free(n);
    let mut h = l0;
    lemma_bracket_free_concat(h, a);
    h = h + a;
    lemma_bracket_free_concat(h, l1);
    h = h + l1;
    lemma_bracket_free_concat(h, b);
    h = h + b;
    lemma_bracket_free_concat(h, l2);
    h = h + l2;
    lemma_bracket_free_concat(h, a);
    h = h + a;
    lemma_bracket_free_concat(h, l3);
    h = h + l3;
    lemma_bracket_free_concat(h, b);
    h = h + b;
    lemma_bracket_free_concat(h, l4);
    h = h + l4;
    lemma_bracket_free_concat(h, decimal(n));
    h = h + decimal(n);
    lemma_bracket_free_concat(h, l5);
    h = h + l5;
    lemma_bracket_free_concat(h, a);
    h = h + a;
    lemma_bracket_free_concat(h, l1);
    h = h + l1;
    lemma_bracket_free_concat(h, b);
    h = h + b;
    lemma_bracket_free_concat(h, l6);
    h = h + l6;
    lemma_bracket_free_concat(h, a);
    h = h + a;
    lemma_bracket_free_concat(h, l7);
    h = h + l7;
    lemma_bracket_free_concat(h, b);
    h = h + b;
    lemma_bracket_free_concat(h, l8);
    h = h + l8;
    lemma_bracket_free_concat(h, ctx);
    h = h + ctx;
    lemma_bracket_free_concat(h, l9);
    h = h + l9;
    lemma_bracket_free_concat(h, query);
    h = h + query;
    lemma_bracket_free_concat(h, l10);
    h = h + l10;
    assert(h == prompt_head(query, ctx, a, b, n));
    assert(l0[0] == 'W');
    assert(h[0] == l0[0]);
}

/// Extracting the JSON array from the script prompt itself gives back the
/// example the prompt ends with, when the topic, the context and the two
/// speaker names hold no square bracket.
pub proof fn lemma_prompt_example_extracted(query: Seq<char>, ctx: Seq<char>, a: Seq<char>, b: Seq<char>, n: nat)
    requires
        bracket_free(query),
        bracket_free(ctx),
        bracket_free(a),
        bracket_free(b),
    ensures
        spec_extract_json_array(script_prompt(query, ctx, a, b, n)) == Ok::<Seq<char>, Seq<char>>(
            prompt_example(a, b),
        ),
{
    lemma_prompt_split(query, ctx, a, b, n);
    lemma_prompt_head_bracket_free(query, ctx, a, b, n);
    let h = prompt_head(query, ctx, a, b, n);
    let x = prompt_example_inner(a, b);
    let e = prompt_example(a, b);
    let t = h + e;
    reveal_strlit("[");
    reveal_strlit("]");
    reveal_strlit("{\"speaker\":\"");
    reveal_strlit("\",\"text\":\"...\"},{\"speaker\":\"");
    reveal_strlit("\",\"text\":\"...\"}");
    assert(bracket_free("{\"speaker\":\""@));
    assert(bracket_free("\",\"text\":\"...\"},{\"speaker\":\""@));
    assert(bracket_free("\",\"text\":\"...\"}"@));
    lemma_bracket_free_concat("{\"speaker\":\""@, a);
    lemma_bracket_free_concat("{\"speaker\":\""@ + a, "\",\"text\":\"...\"},{\"speaker\":\""@);
    lemma_bracket_free_concat("{\"speaker\":\""@ + a + "\",\"text\":\"...\"},{\"speaker\":\""@, b);
    lemma_bracket_free_concat(
        "{\"speaker\":\""@ + a + "\",\"text\":\"...\"},{\"speaker\":\""@ + b,
        "\",\"text\":\"...\"}"@,
    );
    assert(bracket_free(x));
    let p = h.len() as int;
    let q = t.len() - 1;
    assert(e.len() == x.len() + 2);
    assert(t[p] == '[');
    assert(t[q] == ']');
    // the text is its own trim
    assert(t[0] == 'W');
    lemma_trim_unchanged(t);
    assert(trim(t) == t);
    // the first `[` is the one that opens the example
    assert(is_first_index(t, '[', p));
    lemma_first_index_unique(t, '[', p);
    // it closes at the very end
    assert(t.subrange(p, q + 1) =~= e);
    lemma_depth_concat("["@, x);
    lemma_depth_concat("["@ + x, "]"@);
    lemma_depth_bracket_free(x);
    assert(bracket_depth("["@) == 1) by {
        assert("["@.len() == 1 && "["@.last() == '[');
        assert("["@.drop_last() =~= Seq::<char>::empty());
        assert(bracket_depth(Seq::<char>::empty()) == 0);
    }
    assert(bracket_depth("]"@) == -1) by {
        assert("]"@.len() == 1 && "]"@.last() == ']');
        assert("]"@.drop_last() =~= Seq::<char>::empty());
        assert(bracket_depth(Seq::<char>::empty()) == 0);
    }
    assert(balances_at(t, p, q));
    assert forall|k: int| p <= k < q implies !#[trigger] balances_at(t, p, k) by {
        let y = x.take(k - p);
        assert(t.subrange(p, k + 1) =~= "["@ + y);
        assert(bracket_free(y)) by {
            assert forall|i: int| 0 <= i < y.len() implies #[trigger] y[i] != '[' && y[i] != ']' by {
                assert(y[i] == x[i]);
            }
        }
        lemma_depth_bracket_free(y);
        lemma_depth_concat("["@, y);
    }
    assert(is_matching_close(t, p, q));
    lemma_matching_close_unique(t, p, q);
    assert(exists|p2: int| is_first_index(t, '[', p2));
    let pc = choose|p2: int| is_first_index(t, '[', p2);
    assert(pc == p);
    assert(exists|q2: int| is_matching_close(t, pc, q2));
    let qc = choose|q2: int| is_matching_close(t, pc, q2);
    assert(qc == q);
    assert(json_array_span(t) == Some((p, q)));
    assert(spec_extract_json_array(t) == Ok::<Seq<char>, Seq<char>>(e));
}

} // verus!
