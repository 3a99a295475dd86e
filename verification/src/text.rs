//! Character-level text helpers shared by the parsers: whitespace trimming,
//! UTF-8 byte lengths, decimal rendering and string assembly.
use vstd::prelude::*;
use vstd::utf8::*;

verus! {

/// Unicode `White_Space` property, the definition that `char::is_whitespace`
/// and `str::trim` use.
pub open spec fn is_ws(c: char) -> bool {
    let u = c as u32;
    ||| (0x9 <= u <= 0xD)
    ||| u == 0x20
    ||| u == 0x85
    ||| u == 0xA0
    ||| u == 0x1680
    ||| (0x2000 <= u <= 0x200A)
    ||| u == 0x2028
    ||| u == 0x2029
    ||| u == 0x202F
    ||| u == 0x205F
    ||| u == 0x3000
}

/// `s` without its leading whitespace.
pub open spec fn trim_start(s: Seq<char>) -> Seq<char>
    decreases s.len(),
{
    if s.len() > 0 && is_ws(s[0]) {
        trim_start(s.drop_first())
    } else {
        s
    }
}

/// `s` without its trailing whitespace.
pub open spec fn trim_end(s: Seq<char>) -> Seq<char>
    decreases s.len(),
{
    if s.len() > 0 && is_ws(s.last()) {
        trim_end(s.drop_last())
    } else {
        s
    }
}

/// `s` without leading and trailing whitespace, as `str::trim` gives it.
pub open spec fn trim(s: Seq<char>) -> Seq<char> {
    trim_end(trim_start(s))
}

/// Every character of `s` is whitespace.
pub open spec fn all_ws(s: Seq<char>) -> bool {
    forall|i: int| 0 <= i < s.len() ==> is_ws(#[trigger] s[i])
}

proof fn lemma_trim_start_ws_prefix(w: Seq<char>, s: Seq<char>)
    requires
        all_ws(w),
    ensures
        trim_start(w + s) == trim_start(s),
    decreases w.len(),
{
    if w.len() > 0 {
        assert((w + s)[0] == w[0]);
        assert((w + s).drop_first() =~= w.drop_first() + s);
        lemma_trim_start_ws_prefix(w.drop_first(), s);
    } else {
        assert(w + s =~= s);
    }
}

proof fn lemma_trim_end_ws_suffix(s: Seq<char>, w: Seq<char>)
    requires
        all_ws(w),
    ensures
        trim_end(s + w) == trim_end(s),
    decreases w.len(),
{
    if w.len() > 0 {
        assert((s + w).last() == w.last());
        assert((s + w).drop_last() =~= s + w.drop_last());
        lemma_trim_end_ws_suffix(s, w.drop_last());
    } else {
        assert(s + w =~= s);
    }
}

proof fn lemma_trim_start_append(s: Seq<char>, t: Seq<char>)
    requires
        trim_start(s).len() > 0,
    ensures
        trim_start(s + t) == trim_start(s) + t,
    decreases s.len(),
{
    if s.len() > 0 && is_ws(s[0]) {
        assert((s + t)[0] == s[0]);
        assert((s + t).drop_first() =~= s.drop_first() + t);
        lemma_trim_start_append(s.drop_first(), t);
    } else if s.len() > 0 {
        assert((s + t)[0] == s[0]);
    }
}

proof fn lemma_trim_start_all_ws(s: Seq<char>)
    requires
        all_ws(s),
    ensures
        trim_start(s).len() == 0,
    decreases s.len(),
{
    if s.len() > 0 {
        lemma_trim_start_all_ws(s.drop_first());
    }
}

proof fn lemma_trim_start_empty_all_ws(s: Seq<char>)
    requires
        trim_start(s).len() == 0,
    ensures
        all_ws(s),
    decreases s.len(),
{
    if s.len() > 0 {
        lemma_trim_start_empty_all_ws(s.drop_first());
        assert forall|i: int| 0 <= i < s.len() implies is_ws(#[trigger] s[i]) by {
            if i > 0 {
                assert(s[i] == s.drop_first()[i - 1]);
            }
        }
    }
}

/// Whitespace around a text does not change its trim.
pub proof fn lemma_trim_surrounding_ws(w1: Seq<char>, s: Seq<char>, w2: Seq<char>)
    requires
        all_ws(w1),
        all_ws(w2),
    ensures
        trim(w1 + s + w2) == trim(s),
{
    assert(w1 + s + w2 =~= w1 + (s + w2));
    lemma_trim_start_ws_prefix(w1, s + w2);
    if trim_start(s).len() > 0 {
        lemma_trim_start_append(s, w2);
        lemma_trim_end_ws_suffix(trim_start(s), w2);
    } else {
        lemma_trim_start_empty_all_ws(s);
        assert forall|i: int| 0 <= i < (s + w2).len() implies is_ws(#[trigger] (s + w2)[i]) by {
            if i < s.len() {
                assert((s + w2)[i] == s[i]);
            } else {
                assert((s + w2)[i] == w2[i - s.len()]);
            }
        }
        lemma_trim_start_all_ws(s + w2);
        assert(trim_start(s + w2) =~= Seq::<char>::empty());
        assert(trim_start(s) =~= Seq::<char>::empty());
    }
}

/// Number of bytes of the UTF-8 encoding of `s` (what `str::len` reports).
pub open spec fn utf8_len(s: Seq<char>) -> nat {
    encode_utf8(s).len()
}

/// `n` bytes fall on a character boundary of `s` (or past its end).
pub open spec fn byte_boundary(s: Seq<char>, n: nat) -> bool {
    n >= utf8_len(s) || exists|k: int| 0 <= k <= s.len() && #[trigger] utf8_len(s.take(k)) == n
}

/// The characters of `&s[..n]` for an `n` on a character boundary, or all of
/// `s` when `n` reaches past its end.
pub open spec fn byte_prefix(s: Seq<char>, n: nat) -> Seq<char> {
    if n >= utf8_len(s) {
        s
    } else {
        s.take(choose|k: int| 0 <= k <= s.len() && #[trigger] utf8_len(s.take(k)) == n)
    }
}

/// Decimal digits of `n`, as `format!("{}", n)` writes them.
pub open spec fn decimal(n: nat) -> Seq<char>
    decreases n,
{
    if n < 10 {
        seq![digit_char(n)]
    } else {
        decimal(n / 10).push(digit_char(n % 10))
    }
}

pub open spec fn digit_char(d: nat) -> char {
    if d == 0 { '0' }
    else if d == 1 { '1' }
    else if d == 2 { '2' }
    else if d == 3 { '3' }
    else if d == 4 { '4' }
    else if d == 5 { '5' }
    else if d == 6 { '6' }
    else if d == 7 { '7' }
    else if d == 8 { '8' }
    else { '9' }
}

/// Encoding a concatenation encodes each part.
pub proof fn lemma_encode_utf8_concat(a: Seq<char>, b: Seq<char>)
    ensures
        encode_utf8(a + b) == encode_utf8(a) + encode_utf8(b),
    decreases a.len(),
{
    if a.len() == 0 {
        assert(a + b =~= b);
        assert(encode_utf8(a) =~= Seq::<u8>::empty());
        assert(encode_utf8(a) + encode_utf8(b) =~= encode_utf8(b));
    } else {
        lemma_encode_utf8_concat(a.drop_first(), b);
        assert((a + b).drop_first() =~= a.drop_first() + b);
        assert((a + b)[0] == a[0]);
        assert(encode_utf8(a) + encode_utf8(b) =~= encode_scalar(a[0] as u32) + (encode_utf8(
            a.drop_first(),
        ) + encode_utf8(b)));
    }
}

/// Encoding a sequence extended by one character adds that character's bytes.
pub proof fn lemma_utf8_len_push(a: Seq<char>, c: char)
    ensures
        utf8_len(a.push(c)) == utf8_len(a) + encode_scalar(c as u32).len(),
{
    lemma_encode_utf8_concat(a, seq![c]);
    assert(a + seq![c] =~= a.push(c));
    assert(seq![c].drop_first() =~= Seq::<char>::empty());
    assert(encode_utf8(Seq::<char>::empty()) =~= Seq::<u8>::empty());
    assert(encode_utf8(seq![c]) =~= encode_scalar(c as u32) + encode_utf8(Seq::<char>::empty()));
}

/// Byte lengths of prefixes grow strictly with the prefix.
pub proof fn lemma_utf8_len_take_mono(s: Seq<char>, i: int, j: int)
    requires
        0 <= i <= j <= s.len(),
    ensures
        utf8_len(s.take(i)) <= utf8_len(s.take(j)),
        i < j ==> utf8_len(s.take(i)) < utf8_len(s.take(j)),
    decreases j - i,
{
    if i < j {
        lemma_utf8_len_take_mono(s, i, j - 1);
        assert(s.take(j) =~= s.take(j - 1).push(s[j - 1]));
        lemma_utf8_len_push(s.take(j - 1), s[j - 1]);
    }
}

/// Number of UTF-8 bytes of one character.
pub fn char_utf8_width(c: char) -> (w: usize)
    ensures
        w == encode_scalar(c as u32).len(),
        1 <= w <= 4,
{
    let u = c as u32;
    proof {
        char_is_scalar(c);
    }
    if u <= 0x7F {
        1
    } else if u <= 0x7FF {
        2
    } else if u <= 0xFFFF {
        3
    } else {
        4
    }
}

/// `String::push` appends one character.
#[verifier::external_body]
pub fn push_char(s: &mut String, c: char)
    ensures
        final(s)@ == old(s)@.push(c),
{
    s.push(c);
}

/// Appends `t` to `s`.
pub fn append_str(s: &mut String, t: &str)
    ensures
        final(s)@ == old(s)@ + t@,
{
    let ghost start = s@;
    let mut i: usize = 0;
    let v = str_chars(t);
    while i < v.len()
        invariant
            0 <= i <= v@.len(),
            v@ == t@,
            s@ == start + t@.take(i as int),
        decreases v@.len() - i,
    {
        push_char(s, v[i]);
        assert(t@.take(i + 1) =~= t@.take(i as int).push(t@[i as int]));
        i = i + 1;
    }
    assert(t@.take(i as int) =~= t@);
}

/// Appends the characters `v`.
pub fn append_chars(s: &mut String, v: &[char])
    ensures
        final(s)@ == old(s)@ + v@,
{
    let ghost start = s@;
    let mut i: usize = 0;
    while i < v.len()
        invariant
            0 <= i <= v@.len(),
            s@ == start + v@.take(i as int),
        decreases v@.len() - i,
    {
        push_char(s, v[i]);
        assert(v@.take(i + 1) =~= v@.take(i as int).push(v@[i as int]));
        i = i + 1;
    }
    assert(v@.take(i as int) =~= v@);
}

/// A new string holding the characters of `t`.
pub fn string_from(t: &str) -> (r: String)
    ensures
        r@ == t@,
{
    let mut r = String::new();
    append_str(&mut r, t);
    r
}

/// The characters of a string slice.
pub fn str_chars(s: &str) -> (v: Vec<char>)
    ensures
        v@ == s@,
{
    let mut v: Vec<char> = Vec::new();
    for c in it: s.chars()
        invariant
            it.seq() == s@,
            v@ == it.seq().take(it.index() as int),
    {
        v.push(c);
        assert(it.seq().take(it.index() + 1) =~= it.seq().take(it.index() as int).push(c));
    }
    assert(s@.take(s@.len() as int) =~= s@);
    v
}

/// The characters `v[lo..hi]` as a `String`.
pub fn string_of(v: &[char], lo: usize, hi: usize) -> (r: String)
    requires
        lo <= hi <= v@.len(),
    ensures
        r@ == v@.subrange(lo as int, hi as int),
{
    let mut r = String::new();
    let mut i = lo;
    while i < hi
        invariant
            lo <= i <= hi <= v@.len(),
            r@ == v@.subrange(lo as int, i as int),
        decreases hi - i,
    {
        push_char(&mut r, v[i]);
        assert(v@.subrange(lo as int, i + 1) =~= v@.subrange(lo as int, i as int).push(v@[i as int]));
        i = i + 1;
    }
    r
}

/// `char::is_whitespace`.
pub fn is_whitespace(c: char) -> (b: bool)
    ensures
        b == is_ws(c),
{
    let u = c as u32;
    (0x9 <= u && u <= 0xD) || u == 0x20 || u == 0x85 || u == 0xA0 || u == 0x1680 || (0x2000 <= u
        && u <= 0x200A) || u == 0x2028 || u == 0x2029 || u == 0x202F || u == 0x205F || u == 0x3000
}

/// Indices `lo <= hi` with `v[lo..hi]` equal to `trim(v)`.
pub fn trim_bounds(v: &[char]) -> (r: (usize, usize))
    ensures
        r.0 <= r.1 <= v@.len(),
        v@.subrange(r.0 as int, r.1 as int) == trim(v@),
{
    let mut lo: usize = 0;
    assert(v@.subrange(0, v@.len() as int) =~= v@);
    while lo < v.len() && is_whitespace(v[lo])
        invariant
            lo <= v@.len(),
            trim_start(v@) == trim_start(v@.subrange(lo as int, v@.len() as int)),
        decreases v@.len() - lo,
    {
        assert(v@.subrange(lo as int, v@.len() as int).drop_first() =~= v@.subrange(
            lo + 1,
            v@.len() as int,
        ));
        lo = lo + 1;
    }
    let ghost mid = v@.subrange(lo as int, v@.len() as int);
    assert(trim_start(mid) == mid);
    let mut hi: usize = v.len();
    while hi > lo && is_whitespace(v[hi - 1])
        invariant
            lo <= hi <= v@.len(),
            mid == v@.subrange(lo as int, v@.len() as int),
            trim_end(mid) == trim_end(v@.subrange(lo as int, hi as int)),
        decreases hi,
    {
        assert(v@.subrange(lo as int, hi as int).drop_last() =~= v@.subrange(
            lo as int,
            hi - 1,
        ));
        hi = hi - 1;
    }
    (lo, hi)
}

/// `str::trim`, as an owned string.
pub fn trim_str(s: &str) -> (r: String)
    ensures
        r@ == trim(s@),
{
    let v = str_chars(s);
    let (lo, hi) = trim_bounds(&v);
    string_of(&v, lo, hi)
}

/// The digit character for `d < 10`.
pub fn digit(d: usize) -> (c: char)
    requires
        d < 10,
    ensures
        c == digit_char(d as nat),
{
    if d == 0 { '0' }
    else if d == 1 { '1' }
    else if d == 2 { '2' }
    else if d == 3 { '3' }
    else if d == 4 { '4' }
    else if d == 5 { '5' }
    else if d == 6 { '6' }
    else if d == 7 { '7' }
    else if d == 8 { '8' }
    else { '9' }
}

/// Appends the decimal digits of `n`.
pub fn push_decimal(s: &mut String, n: usize)
    ensures
        final(s)@ == old(s)@ + decimal(n as nat),
    decreases n,
{
    if n < 10 {
        push_char(s, digit(n));
        assert(old(s)@.push(digit_char(n as nat)) =~= old(s)@ + seq![digit_char(n as nat)]);
    } else {
        let ghost s0 = s@;
        push_decimal(s, n / 10);
        push_char(s, digit(n % 10));
        assert(s0 + decimal((n / 10) as nat) + seq![digit_char((n % 10) as nat)] =~= s0
            + decimal(n as nat));
    }
}

/// The characters of `&s[..min(n, s.len())]`; the cut must fall on a
/// character boundary, where `str` indexing would panic otherwise.
pub fn byte_prefix_of(v: &[char], n: usize) -> (r: String)
    requires
        byte_boundary(v@, n as nat),
        n <= usize::MAX - 4,
    ensures
        r@ == byte_prefix(v@, n as nat),
{
    let mut k: usize = 0;
    let mut bytes: usize = 0;
    while k < v.len() && bytes < n
        invariant
            k <= v@.len(),
            bytes == utf8_len(v@.take(k as int)),
            bytes <= n + 4,
            k > 0 ==> utf8_len(v@.take(k - 1)) < n,
            n <= usize::MAX - 4,
        decreases v@.len() - k,
    {
        let w = char_utf8_width(v[k]);
        proof {
            assert(v@.take(k + 1) =~= v@.take(k as int).push(v@[k as int]));
            lemma_utf8_len_push(v@.take(k as int), v@[k as int]);
            assert(v@.take(k + 1 - 1) =~= v@.take(k as int));
        }
        bytes = bytes + w;
        k = k + 1;
    }
    proof {
        assert(v@.take(v@.len() as int) =~= v@);
        if n >= utf8_len(v@) {
            if k < v@.len() {
                lemma_utf8_len_take_mono(v@, k as int, v@.len() as int);
                assert(false);
            }
        } else {
            let j = choose|j: int| 0 <= j <= v@.len() && #[trigger] utf8_len(v@.take(j)) == n;
            if j < k {
                lemma_utf8_len_take_mono(v@, j, k - 1);
                assert(false);
            } else if j > k {
                lemma_utf8_len_take_mono(v@, k as int, j);
                assert(false);
            }
            assert(v@.take(k as int) == v@.take(j));
        }
        assert(v@.subrange(0, k as int) =~= v@.take(k as int));
    }
    string_of(v, 0, k)
}

/// Whether `n` bytes fall on a character boundary of `v` (or past its end).
pub fn has_byte_boundary(v: &[char], n: usize) -> (b: bool)
    requires
        n <= usize::MAX - 4,
    ensures
        b == byte_boundary(v@, n as nat),
{
    let mut k: usize = 0;
    let mut bytes: usize = 0;
    while k < v.len() && bytes < n
        invariant
            k <= v@.len(),
            bytes == utf8_len(v@.take(k as int)),
            bytes <= n + 4,
            k > 0 ==> utf8_len(v@.take(k - 1)) < n,
            n <= usize::MAX - 4,
        decreases v@.len() - k,
    {
        let w = char_utf8_width(v[k]);
        proof {
            assert(v@.take(k + 1) =~= v@.take(k as int).push(v@[k as int]));
            lemma_utf8_len_push(v@.take(k as int), v@[k as int]);
            assert(v@.take(k + 1 - 1) =~= v@.take(k as int));
        }
        bytes = bytes + w;
        k = k + 1;
    }
    proof {
        assert(v@.take(v@.len() as int) =~= v@);
        lemma_utf8_len_take_mono(v@, k as int, v@.len() as int);
        if bytes == n {
            assert(utf8_len(v@.take(k as int)) == n);
        } else if bytes > n {
            assert forall|j: int| 0 <= j <= v@.len() implies #[trigger] utf8_len(v@.take(j)) != n by {
                if j < k {
                    lemma_utf8_len_take_mono(v@, j, k - 1);
                } else if j > k {
                    lemma_utf8_len_take_mono(v@, k as int, j);
                }
            }
        }
    }
    bytes == n || n >= bytes && k == v.len()
}

/// The parts joined with `sep` between them (`[..].join(sep)`).
pub open spec fn join(parts: Seq<Seq<char>>, sep: Seq<char>) -> Seq<char>
    decreases parts.len(),
{
    if parts.len() == 0 {
        Seq::empty()
    } else if parts.len() == 1 {
        parts[0]
    } else {
        join(parts.drop_last(), sep) + sep + parts.last()
    }
}

/// The views of a list of strings.
pub open spec fn strings_view(v: Seq<String>) -> Seq<Seq<char>> {
    v.map_values(|s: String| s@)
}

/// `parts.join(sep)`.
pub fn join_strings(parts: &Vec<String>, sep: &str) -> (r: String)
    ensures
        r@ == join(strings_view(parts@), sep@),
{
    let ghost pv = strings_view(parts@);
    let mut r = String::new();
    let mut i: usize = 0;
    while i < parts.len()
        invariant
            0 <= i <= parts@.len(),
            pv == strings_view(parts@),
            r@ == join(pv.take(i as int), sep@),
        decreases parts@.len() - i,
    {
        assert(pv.take(i + 1).drop_last() =~= pv.take(i as int));
        assert(pv.take(i + 1).last() == parts@[i as int]@);
        if i > 0 {
            append_str(&mut r, sep);
        } else {
            assert(r@ =~= Seq::<char>::empty());
        }
        append_str(&mut r, parts[i].as_str());
        proof {
            if i == 0 {
                assert(pv.take(1).len() == 1);
                assert(r@ =~= pv.take(1)[0]);
            }
        }
        i = i + 1;
    }
    assert(pv.take(i as int) =~= pv);
    r
}

/// The text of a table: cells joined by tabs, rows by line breaks.
pub open spec fn table_text(rows: Seq<Seq<Seq<char>>>) -> Seq<char> {
    join(rows.map_values(|r: Seq<Seq<char>>| join(r, "\t"@)), "\n"@)
}

/// The views of a table's rows.
pub open spec fn rows_view(v: Seq<Vec<String>>) -> Seq<Seq<Seq<char>>> {
    v.map_values(|r: Vec<String>| strings_view(r@))
}

/// The text of a table: cells joined by tabs, rows by line breaks.
pub fn table_text_of(rows: &Vec<Vec<String>>) -> (r: String)
    ensures
        r@ == table_text(rows_view(rows@)),
{
    let mut lines: Vec<String> = Vec::new();
    let mut i: usize = 0;
    let ghost lv = rows_view(rows@).map_values(|r: Seq<Seq<char>>| join(r, "\t"@));
    while i < rows.len()
        invariant
            0 <= i <= rows@.len(),
            lv == rows_view(rows@).map_values(|r: Seq<Seq<char>>| join(r, "\t"@)),
            strings_view(lines@) == lv.take(i as int),
        decreases rows@.len() - i,
    {
        let ghost before = lines@;
        lines.push(join_strings(&rows[i], "\t"));
        assert(strings_view(lines@) =~= strings_view(before).push(lv[i as int]));
        assert(lv.take(i + 1) =~= lv.take(i as int).push(lv[i as int]));
        i = i + 1;
    }
    assert(lv.take(i as int) =~= lv);
    join_strings(&lines, "\n")
}

} // verus!
