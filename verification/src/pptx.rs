//! PPTX structure: which archive entries are slides and media, slide order,
//! slide relationships, and what each slide contributes to the document.
use vstd::prelude::*;
use crate::text::{
    append_chars, append_str, decimal, digit_char, push_decimal, rows_view, str_chars, string_from,
    string_of, strings_view, table_text, table_text_of, trim, trim_str,
};
use crate::xml_events::{items_view, xml_event_items, xml_events, XmlAttr, XmlItem, XmlItemSpec};
use crate::script::str_eq;
use crate::slides::{clone_table, SlideContent};
use crate::document::{
    caption_for, caption_of, caption_prefix, new_tagged, new_text_element, text_element, BlockSpec,
    DocBuilder, MediaRequest, MediaSpec, TableRequest,
};

verus! {

/// `s` with every leading repetition of `p` removed (`str::trim_start_matches`).
pub open spec fn strip_prefixes(s: Seq<char>, p: Seq<char>) -> Seq<char>
    decreases s.len(),
{
    if p.len() > 0 && p.len() <= s.len() && s.take(p.len() as int) == p {
        strip_prefixes(s.skip(p.len() as int), p)
    } else {
        s
    }
}

/// `s` with every trailing repetition of `p` removed (`str::trim_end_matches`).
pub open spec fn strip_suffixes(s: Seq<char>, p: Seq<char>) -> Seq<char>
    decreases s.len(),
{
    if p.len() > 0 && p.len() <= s.len() && s.skip(s.len() - p.len()) == p {
        strip_suffixes(s.take(s.len() - p.len()), p)
    } else {
        s
    }
}

/// A decimal digit.
pub open spec fn is_digit(c: char) -> bool {
    '0' <= c <= '9'
}

/// The number that the decimal digits `s` write.
pub open spec fn digits_value(s: Seq<char>) -> nat
    decreases s.len(),
{
    if s.len() == 0 {
        0
    } else {
        digits_value(s.drop_last()) * 10 + ((s.last() as int) - ('0' as int)) as nat
    }
}

/// Every character of `d` is a decimal digit.
pub open spec fn all_digits(d: Seq<char>) -> bool {
    forall|i: int| 0 <= i < d.len() ==> is_digit(#[trigger] d[i])
}

/// The value of a run of digits that must fit in a `u32`.
pub open spec fn parse_digits(d: Seq<char>) -> Option<u32> {
    if d.len() > 0 && all_digits(d) && digits_value(d) <= u32::MAX {
        Some(digits_value(d) as u32)
    } else {
        None
    }
}

/// `str::parse::<u32>`: an optional `+`, then one or more decimal digits
/// whose value fits in a `u32`.
pub open spec fn spec_parse_u32(s: Seq<char>) -> Option<u32> {
    if s.len() > 0 && s[0] == '+' {
        parse_digits(s.drop_first())
    } else {
        parse_digits(s)
    }
}

/// The number in a slide entry name such as `ppt/slides/slide3.xml`, or 0.
pub open spec fn slide_number(name: Seq<char>) -> u32 {
    match spec_parse_u32(strip_suffixes(strip_prefixes(name, "ppt/slides/slide"@), ".xml"@)) {
        Some(n) => n,
        None => 0,
    }
}

/// `v[lo..hi]` starts with `p`.
fn starts_at(v: &Vec<char>, lo: usize, hi: usize, p: &Vec<char>) -> (b: bool)
    requires
        lo <= hi <= v@.len(),
    ensures
        b == (p@.len() <= hi - lo && v@.subrange(lo as int, hi as int).take(p@.len() as int) == p@),
{
    if p.len() > hi - lo {
        return false;
    }
    let mut j: usize = 0;
    while j < p.len()
        invariant
            lo <= hi <= v@.len(),
            p@.len() <= hi - lo,
            0 <= j <= p@.len(),
            forall|m: int| 0 <= m < j ==> v@[lo + m] == p@[m],
        decreases p@.len() - j,
    {
        if v[lo + j] != p[j] {
            assert(v@.subrange(lo as int, hi as int).take(p@.len() as int)[j as int] != p@[j as int]);
            return false;
        }
        j = j + 1;
    }
    assert(v@.subrange(lo as int, hi as int).take(p@.len() as int) =~= p@);
    true
}

/// `v[lo..hi]` ends with `p`.
fn ends_at(v: &Vec<char>, lo: usize, hi: usize, p: &Vec<char>) -> (b: bool)
    requires
        lo <= hi <= v@.len(),
    ensures
        b == (p@.len() <= hi - lo && v@.subrange(lo as int, hi as int).skip(hi - lo - p@.len()) == p@),
{
    if p.len() > hi - lo {
        return false;
    }
    let start = hi - p.len();
    let mut j: usize = 0;
    while j < p.len()
        invariant
            lo <= start <= hi <= v@.len(),
            start == hi - p@.len(),
            0 <= j <= p@.len(),
            forall|m: int| 0 <= m < j ==> v@[start + m] == p@[m],
        decreases p@.len() - j,
    {
        if v[start + j] != p[j] {
            assert(v@.subrange(lo as int, hi as int).skip(hi - lo - p@.len())[j as int] != p@[j as int]);
            return false;
        }
        j = j + 1;
    }
    assert(v@.subrange(lo as int, hi as int).skip(hi - lo - p@.len()) =~= p@);
    true
}

/// Whether the characters of `s` start with `p`.
pub fn str_starts_with(s: &str, p: &str) -> (b: bool)
    ensures
        b == (p@.len() <= s@.len() && s@.take(p@.len() as int) == p@),
{
    let v = str_chars(s);
    let pv = str_chars(p);
    assert(v@.subrange(0, v@.len() as int) =~= v@);
    starts_at(&v, 0, v.len(), &pv)
}

/// Whether the characters of `s` end with `p`.
pub fn str_ends_with(s: &str, p: &str) -> (b: bool)
    ensures
        b == (p@.len() <= s@.len() && s@.skip(s@.len() - p@.len()) == p@),
{
    let v = str_chars(s);
    let pv = str_chars(p);
    assert(v@.subrange(0, v@.len() as int) =~= v@);
    ends_at(&v, 0, v.len(), &pv)
}

/// Bounds of `strip_prefixes(v[lo..hi], p)`.
fn strip_prefixes_at(v: &Vec<char>, lo: usize, hi: usize, p: &Vec<char>) -> (r: usize)
    requires
        lo <= hi <= v@.len(),
    ensures
        lo <= r <= hi,
        v@.subrange(r as int, hi as int) == strip_prefixes(v@.subrange(lo as int, hi as int), p@),
{
    let mut cur = lo;
    while p.len() > 0 && starts_at(v, cur, hi, p)
        invariant
            lo <= cur <= hi <= v@.len(),
            strip_prefixes(v@.subrange(cur as int, hi as int), p@) == strip_prefixes(
                v@.subrange(lo as int, hi as int),
                p@,
            ),
        decreases hi - cur,
    {
        assert(v@.subrange(cur as int, hi as int).skip(p@.len() as int) =~= v@.subrange(
            cur + p@.len(),
            hi as int,
        ));
        cur = cur + p.len();
    }
    cur
}

/// Bounds of `strip_suffixes(v[lo..hi], p)`.
fn strip_suffixes_at(v: &Vec<char>, lo: usize, hi: usize, p: &Vec<char>) -> (r: usize)
    requires
        lo <= hi <= v@.len(),
    ensures
        lo <= r <= hi,
        v@.subrange(lo as int, r as int) == strip_suffixes(v@.subrange(lo as int, hi as int), p@),
{
    let mut cur = hi;
    while p.len() > 0 && ends_at(v, lo, cur, p)
        invariant
            lo <= cur <= hi <= v@.len(),
            strip_suffixes(v@.subrange(lo as int, cur as int), p@) == strip_suffixes(
                v@.subrange(lo as int, hi as int),
                p@,
            ),
        decreases cur - lo,
    {
        assert(v@.subrange(lo as int, cur as int).take(cur - lo - p@.len()) =~= v@.subrange(
            lo as int,
            cur - p@.len(),
        ));
        cur = cur - p.len();
    }
    cur
}

proof fn lemma_digits_value_prefix(s: Seq<char>, k: int)
    requires
        0 <= k <= s.len(),
        forall|i: int| 0 <= i < s.len() ==> is_digit(#[trigger] s[i]),
    ensures
        digits_value(s.take(k)) <= digits_value(s),
    decreases s.len() - k,
{
    if k < s.len() {
        lemma_digits_value_prefix(s, k + 1);
        assert(s.take(k + 1).drop_last() =~= s.take(k));
        assert(s.take(k + 1).last() == s[k]);
    } else {
        assert(s.take(k) =~= s);
    }
}

/// `str::parse::<u32>` of `v[lo..hi]`.
fn parse_u32_at(v: &Vec<char>, lo: usize, hi: usize) -> (r: Option<u32>)
    requires
        lo <= hi <= v@.len(),
    ensures
        r == spec_parse_u32(v@.subrange(lo as int, hi as int)),
{
    let ghost s = v@.subrange(lo as int, hi as int);
    let mut start = lo;
    if hi > lo && v[lo] == '+' {
        start = lo + 1;
    }
    let ghost d = v@.subrange(start as int, hi as int);
    assert(d == if s.len() > 0 && s[0] == '+' { s.drop_first() } else { s });
    assert(spec_parse_u32(s) == parse_digits(d));
    if start == hi {
        return None;
    }
    let mut acc: u64 = 0;
    let mut i = start;
    while i < hi
        invariant
            lo <= start <= i <= hi <= v@.len(),
            d == v@.subrange(start as int, hi as int),
            s == v@.subrange(lo as int, hi as int),
            d == (if s.len() > 0 && s[0] == '+' { s.drop_first() } else { s }),
            d.len() > 0,
            acc == digits_value(d.take(i - start)),
            acc <= u32::MAX,
            forall|m: int| 0 <= m < i - start ==> is_digit(#[trigger] d[m]),
            spec_parse_u32(s) == parse_digits(d),
        decreases hi - i,
    {
        let c = v[i];
        assert(d[i - start] == c);
        if !('0' <= c && c <= '9') {
            assert(!is_digit(d[i - start]));
            return None;
        }
        let dv = (c as u32 - '0' as u32) as u64;
        assert(d.take(i - start + 1).drop_last() =~= d.take(i - start));
        assert(d.take(i - start + 1).last() == c);
        acc = acc * 10 + dv;
        assert(acc == digits_value(d.take(i - start + 1)));
        if acc > 0xFFFF_FFFF {
            proof {
                if all_digits(d) {
                    lemma_digits_value_prefix(d, i - start + 1);
                }
            }
            return None;
        }
        i = i + 1;
    }
    assert(d.take(hi - start) =~= d);
    Some(acc as u32)
}

/// Extract the slide number from a name like `ppt/slides/slide3.xml`; 0
/// when what is left is not a number.
pub fn extract_slide_number(name: &str) -> (n: u32)
    ensures
        n == slide_number(name@),
{
    let v = str_chars(name);
    let pre = str_chars("ppt/slides/slide");
    let suf = str_chars(".xml");
    assert(v@.subrange(0, v@.len() as int) =~= v@);
    let lo = strip_prefixes_at(&v, 0, v.len(), &pre);
    let hi = strip_suffixes_at(&v, lo, v.len(), &suf);
    match parse_u32_at(&v, lo, hi) {
        Some(n) => n,
        None => 0,
    }
}

/// `order` lists every slide index once, by slide number and, among equal
/// numbers, in their order in the archive (a stable sort).
pub open spec fn is_slide_order(keys: Seq<u32>, order: Seq<usize>) -> bool {
    &&& order.len() == keys.len()
    &&& forall|i: int| 0 <= i < order.len() ==> #[trigger] order[i] < keys.len()
    &&& forall|i: int, j: int| 0 <= i < j < order.len() ==> order[i] != order[j]
    &&& forall|i: int, j: int|
        0 <= i < j < order.len() ==> keys[order[i] as int] < keys[order[j] as int] || (keys[order[i] as int]
            == keys[order[j] as int] && order[i] < order[j])
}

/// The order in which slides are read: by slide number, stably.
pub fn slide_order(names: &Vec<String>) -> (order: Vec<usize>)
    ensures
        is_slide_order(names@.map_values(|s: String| slide_number(s@)), order@),
{
    let ghost keys_spec = names@.map_values(|s: String| slide_number(s@));
    let mut keys: Vec<u32> = Vec::new();
    let mut k: usize = 0;
    while k < names.len()
        invariant
            0 <= k <= names@.len(),
            keys@ == keys_spec.take(k as int),
            keys_spec == names@.map_values(|s: String| slide_number(s@)),
        decreases names@.len() - k,
    {
        keys.push(extract_slide_number(names[k].as_str()));
        assert(keys_spec.take(k + 1) =~= keys_spec.take(k as int).push(keys_spec[k as int]));
        k = k + 1;
    }
    assert(keys_spec.take(k as int) =~= keys_spec);
    let mut order: Vec<usize> = Vec::new();
    let mut n: usize = 0;
    while n < keys.len()
        invariant
            0 <= n <= keys@.len(),
            keys@ == keys_spec,
            order@.len() == n,
            forall|i: int| 0 <= i < order@.len() ==> #[trigger] order@[i] < n,
            forall|i: int, j: int| 0 <= i < j < order@.len() ==> order@[i] != order@[j],
            forall|i: int, j: int|
                0 <= i < j < order@.len() ==> keys@[order@[i] as int] < keys@[order@[j] as int] || (
                keys@[order@[i] as int] == keys@[order@[j] as int] && order@[i] < order@[j]),
        decreases keys@.len() - n,
    {
        let key = keys[n];
        let mut pos: usize = 0;
        while pos < order.len() && keys[order[pos]] <= key
            invariant
                0 <= pos <= order@.len(),
                keys@ == keys_spec,
                n < keys@.len(),
                key == keys@[n as int],
                forall|i: int| 0 <= i < order@.len() ==> #[trigger] order@[i] < n,
                forall|i: int| 0 <= i < pos ==> keys@[#[trigger] order@[i] as int] <= key,
            decreases order@.len() - pos,
        {
            pos = pos + 1;
        }
        proof {
            // entries after pos have larger keys (the order is sorted by key)
            assert forall|i: int| pos <= i < order@.len() implies key < keys@[#[trigger] order@[i] as int] by {
                if pos < order@.len() {
                    assert(keys@[order@[pos as int] as int] > key);
                    if i > pos {
                        assert(keys@[order@[pos as int] as int] <= keys@[order@[i] as int]);
                    }
                }
            }
        }
        let ghost old_order = order@;
        order.insert(pos, n);
        assert(order@ =~= old_order.insert(pos as int, n));
        proof {
            assert forall|i: int, j: int| 0 <= i < j < order@.len() implies keys@[order@[i] as int]
                < keys@[order@[j] as int] || (keys@[order@[i] as int] == keys@[order@[j] as int]
                && order@[i] < order@[j]) by {
                if j < pos {
                    assert(order@[i] == old_order[i] && order@[j] == old_order[j]);
                } else if j == pos {
                    assert(order@[i] == old_order[i]);
                } else if i == pos {
                    assert(order@[j] == old_order[j - 1]);
                } else if i < pos {
                    assert(order@[i] == old_order[i] && order@[j] == old_order[j - 1]);
                } else {
                    assert(order@[i] == old_order[i - 1] && order@[j] == old_order[j - 1]);
                }
            }
            assert forall|i: int, j: int| 0 <= i < j < order@.len() implies order@[i] != order@[j] by {
                if j < pos {
                    assert(order@[i] == old_order[i] && order@[j] == old_order[j]);
                } else if j == pos {
                    assert(order@[i] == old_order[i]);
                } else if i == pos {
                    assert(order@[j] == old_order[j - 1]);
                } else if i < pos {
                    assert(order@[i] == old_order[i] && order@[j] == old_order[j - 1]);
                } else {
                    assert(order@[i] == old_order[i - 1] && order@[j] == old_order[j - 1]);
                }
            }
            assert forall|i: int| 0 <= i < order@.len() implies #[trigger] order@[i] < n + 1 by {
                if i < pos {
                    assert(order@[i] == old_order[i]);
                } else if i > pos {
                    assert(order@[i] == old_order[i - 1]);
                }
            }
        }
        n = n + 1;
    }
    order
}

/// The value of the last attribute named `name`, or empty.
pub open spec fn attr_value(attrs: Seq<(Seq<char>, Seq<char>)>, name: Seq<char>) -> Seq<char>
    decreases attrs.len(),
{
    if attrs.len() == 0 {
        Seq::empty()
    } else if attrs.last().0 == name {
        attrs.last().1
    } else {
        attr_value(attrs.drop_last(), name)
    }
}

/// The `(Id, Target)` pairs of the `Relationship` elements among the
/// events, in order, where both are non-empty.
pub open spec fn rel_pairs(items: Seq<XmlItemSpec>) -> Seq<(Seq<char>, Seq<char>)>
    decreases items.len(),
{
    if items.len() == 0 {
        Seq::empty()
    } else {
        let rest = rel_pairs(items.drop_last());
        match items.last() {
            XmlItemSpec::Start { local, namespace, attrs } => {
                let id = attr_value(attrs, "Id"@);
                let target = attr_value(attrs, "Target"@);
                if local == "Relationship"@ && id.len() > 0 && target.len() > 0 {
                    rest.push((id, target))
                } else {
                    rest
                }
            },
            _ => rest,
        }
    }
}

/// The target of relationship `id`: the last pair with that id, as a map
/// filled in order keeps it.
pub open spec fn rel_target(pairs: Seq<(Seq<char>, Seq<char>)>, id: Seq<char>) -> Option<Seq<char>>
    decreases pairs.len(),
{
    if pairs.len() == 0 {
        None
    } else if pairs.last().0 == id {
        Some(pairs.last().1)
    } else {
        rel_target(pairs.drop_last(), id)
    }
}

/// A relationship of a slide: its id and its target path.
#[derive(Debug)]
pub struct Relationship {
    pub id: String,
    pub target: String,
}

pub open spec fn rels_view(v: Seq<Relationship>) -> Seq<(Seq<char>, Seq<char>)> {
    v.map_values(|r: Relationship| (r.id@, r.target@))
}

/// The value of the last attribute named `name`, or empty.
fn attr_value_of(attrs: &Vec<XmlAttr>, name: &str) -> (v: String)
    ensures
        v@ == attr_value(attrs@.map_values(|a: XmlAttr| a@), name@),
{
    let ghost av = attrs@.map_values(|a: XmlAttr| a@);
    let mut i: usize = attrs.len();
    proof {
        lemma_take_all(av);
    }
    while i > 0
        invariant
            i <= attrs@.len(),
            av == attrs@.map_values(|a: XmlAttr| a@),
            attr_value(av, name@) == attr_value(av.take(i as int), name@),
        decreases i,
    {
        let a = &attrs[i - 1];
        assert(av.take(i as int).last() == a@);
        assert(av.take(i as int).drop_last() =~= av.take(i - 1));
        if str_eq(a.local.as_str(), name) {
            return a.value.clone();
        }
        i = i - 1;
    }
    assert(av.take(0) =~= Seq::<(Seq<char>, Seq<char>)>::empty());
    String::new()
}

proof fn lemma_take_all<T>(s: Seq<T>)
    ensures
        s.take(s.len() as int) == s,
{
    assert(s.take(s.len() as int) =~= s);
}

/// The relationships declared by a relationships part's events.
pub fn relationships_of_items(items: &Vec<XmlItem>) -> (rels: Vec<Relationship>)
    ensures
        rels_view(rels@) == rel_pairs(items_view(items@)),
{
    let ghost iv = items_view(items@);
    let mut rels: Vec<Relationship> = Vec::new();
    let mut i: usize = 0;
    assert(rels_view(rels@) =~= Seq::<(Seq<char>, Seq<char>)>::empty());
    while i < items.len()
        invariant
            0 <= i <= items@.len(),
            iv == items_view(items@),
            rels_view(rels@) == rel_pairs(iv.take(i as int)),
        decreases items@.len() - i,
    {
        assert(iv.take(i + 1).drop_last() =~= iv.take(i as int));
        assert(iv.take(i + 1).last() == items@[i as int]@);
        match &items[i] {
            XmlItem::Start { local, namespace, attrs } => {
                let id = attr_value_of(attrs, "Id");
                let target = attr_value_of(attrs, "Target");
                if str_eq(local.as_str(), "Relationship") && !id.as_str().is_empty()
                    && !target.as_str().is_empty() {
                    let ghost before = rels@;
                    rels.push(Relationship { id, target });
                    assert(rels_view(rels@) =~= rels_view(before).push((id@, target@)));
                }
            },
            _ => {},
        }
        i = i + 1;
    }
    proof {
        lemma_take_all(iv);
    }
    rels
}

/// Parse a slide relationships part: relationship id to target path.
pub fn parse_rels_xml(xml: &str) -> (rels: Vec<Relationship>)
    ensures
        rels_view(rels@) == rel_pairs(xml_event_items(xml@)),
{
    let items = xml_events(xml);
    relationships_of_items(&items)
}

/// The target of relationship `id`, if declared.
pub fn relationship_target(rels: &Vec<Relationship>, id: &str) -> (t: Option<String>)
    ensures
        match t {
            Some(s) => rel_target(rels_view(rels@), id@) == Some(s@),
            None => rel_target(rels_view(rels@), id@) is None,
        },
{
    let ghost rv = rels_view(rels@);
    let mut i: usize = rels.len();
    proof {
        lemma_take_all(rv);
    }
    while i > 0
        invariant
            i <= rels@.len(),
            rv == rels_view(rels@),
            rel_target(rv, id@) == rel_target(rv.take(i as int), id@),
        decreases i,
    {
        assert(rv.take(i as int).last() == (rels@[i - 1].id@, rels@[i - 1].target@));
        assert(rv.take(i as int).drop_last() =~= rv.take(i - 1));
        if str_eq(rels[i - 1].id.as_str(), id) {
            return Some(rels[i - 1].target.clone());
        }
        i = i - 1;
    }
    None
}

/// `s` with every occurrence of `from` replaced by `to`, left to right
/// (`str::replace`).
pub open spec fn replace_all(s: Seq<char>, from: Seq<char>, to: Seq<char>) -> Seq<char>
    decreases s.len(),
{
    if from.len() == 0 || s.len() < from.len() {
        s
    } else if s.take(from.len() as int) == from {
        to + replace_all(s.skip(from.len() as int), from, to)
    } else {
        seq![s[0]] + replace_all(s.drop_first(), from, to)
    }
}

/// The relationships part of a slide: `ppt/slides/slideN.xml` gives
/// `ppt/slides/_rels/slideN.xml.rels`.
pub open spec fn rels_path(slide: Seq<char>) -> Seq<char> {
    replace_all(slide, "ppt/slides/"@, "ppt/slides/_rels/"@) + ".rels"@
}

/// The relationships part of a slide entry.
pub fn slide_rels_path(slide_name: &str) -> (p: String)
    ensures
        p@ == rels_path(slide_name@),
{
    let v = str_chars(slide_name);
    let from = str_chars("ppt/slides/");
    let to = str_chars("ppt/slides/_rels/");
    let mut out = String::new();
    let mut i: usize = 0;
    assert(v@.subrange(0, v@.len() as int) =~= v@);
    proof {
        reveal_strlit("ppt/slides/");
    }
    while i < v.len()
        invariant
            0 <= i <= v@.len(),
            v@ == slide_name@,
            from@ == "ppt/slides/"@,
            to@ == "ppt/slides/_rels/"@,
            from@.len() > 0,
            out@ + replace_all(v@.subrange(i as int, v@.len() as int), from@, to@) == replace_all(
                v@,
                from@,
                to@,
            ),
        decreases v@.len() - i,
    {
        let ghost rest = v@.subrange(i as int, v@.len() as int);
        let ghost out0 = out@;
        if starts_at(&v, i, v.len(), &from) {
            let ghost next = v@.subrange(i + from@.len(), v@.len() as int);
            assert(rest.skip(from@.len() as int) =~= next);
            append_chars(&mut out, &to);
            assert(out@ + replace_all(next, from@, to@) =~= out0 + (to@ + replace_all(next, from@, to@)));
            i = i + from.len();
        } else {
            let ghost next = v@.subrange(i + 1, v@.len() as int);
            assert(rest.drop_first() =~= next);
            crate::text::push_char(&mut out, v[i]);
            proof {
                if rest.len() < from@.len() {
                    assert(seq![rest[0]] + next =~= rest);
                }
            }
            assert(out@ + replace_all(next, from@, to@) =~= out0 + (seq![rest[0]] + replace_all(next, from@, to@)));
            i = i + 1;
        }
    }
    assert(v@.subrange(i as int, v@.len() as int) =~= Seq::<char>::empty());
    append_str(&mut out, ".rels");
    out
}

/// Where a picture target of a slide lies in the archive: `../x` is
/// `ppt/x` (all leading `../` removed), anything else is under `ppt/slides/`.
pub open spec fn media_zip_path(target: Seq<char>) -> Seq<char> {
    if "../"@.len() <= target.len() && target.take("../"@.len() as int) == "../"@ {
        "ppt/"@ + strip_prefixes(target, "../"@)
    } else {
        "ppt/slides/"@ + target
    }
}

/// Where a picture target of a slide lies in the archive.
pub fn resolve_media_path(target: &str) -> (p: String)
    ensures
        p@ == media_zip_path(target@),
{
    if str_starts_with(target, "../") {
        let v = str_chars(target);
        let up = str_chars("../");
        assert(v@.subrange(0, v@.len() as int) =~= v@);
        let lo = strip_prefixes_at(&v, 0, v.len(), &up);
        let mut p = string_from("ppt/");
        let rest = string_of(&v, lo, v.len());
        append_str(&mut p, rest.as_str());
        p
    } else {
        let mut p = string_from("ppt/slides/");
        append_str(&mut p, target);
        p
    }
}

/// A slide part: `ppt/slides/slide*.xml`.
pub open spec fn is_slide_entry(name: Seq<char>) -> bool {
    &&& "ppt/slides/slide"@.len() <= name.len()
    &&& name.take("ppt/slides/slide"@.len() as int) == "ppt/slides/slide"@
    &&& ".xml"@.len() <= name.len()
    &&& name.skip(name.len() - ".xml"@.len()) == ".xml"@
}

/// A media file under `prefix` (not a directory entry).
pub open spec fn is_media_entry(name: Seq<char>, prefix: Seq<char>) -> bool {
    &&& prefix.len() <= name.len()
    &&& name.take(prefix.len() as int) == prefix
    &&& !(name.len() >= 1 && name.last() == '/')
}

/// The names kept by `keep`, in order.
pub open spec fn kept_names(names: Seq<Seq<char>>, keep: spec_fn(Seq<char>) -> bool) -> Seq<Seq<char>>
    decreases names.len(),
{
    if names.len() == 0 {
        Seq::empty()
    } else if keep(names.last()) {
        kept_names(names.drop_last(), keep).push(names.last())
    } else {
        kept_names(names.drop_last(), keep)
    }
}

/// The archive entries that are slides, in archive order.
pub fn slide_entries(names: &Vec<String>) -> (r: Vec<String>)
    ensures
        strings_view(r@) == kept_names(strings_view(names@), |n: Seq<char>| is_slide_entry(n)),
{
    let ghost nv = strings_view(names@);
    let ghost keep = |n: Seq<char>| is_slide_entry(n);
    let mut r: Vec<String> = Vec::new();
    let mut i: usize = 0;
    assert(strings_view(r@) =~= Seq::<Seq<char>>::empty());
    while i < names.len()
        invariant
            0 <= i <= names@.len(),
            nv == strings_view(names@),
            keep == (|n: Seq<char>| is_slide_entry(n)),
            strings_view(r@) == kept_names(nv.take(i as int), keep),
        decreases names@.len() - i,
    {
        assert(nv.take(i + 1).drop_last() =~= nv.take(i as int));
        assert(nv.take(i + 1).last() == names@[i as int]@);
        let n = names[i].as_str();
        let is_slide = str_starts_with(n, "ppt/slides/slide") && str_ends_with(n, ".xml");
        if is_slide {
            let ghost before = r@;
            r.push(names[i].clone());
            assert(strings_view(r@) =~= strings_view(before).push(names@[i as int]@));
        }
        i = i + 1;
    }
    assert(nv.take(i as int) =~= nv);
    r
}

/// The archive entries that are media files under `prefix`, in archive order.
pub fn media_entries(names: &Vec<String>, prefix: &str) -> (r: Vec<String>)
    ensures
        strings_view(r@) == kept_names(strings_view(names@), |n: Seq<char>| is_media_entry(n, prefix@)),
{
    let ghost nv = strings_view(names@);
    let ghost keep = |n: Seq<char>| is_media_entry(n, prefix@);
    let mut r: Vec<String> = Vec::new();
    let mut i: usize = 0;
    assert(strings_view(r@) =~= Seq::<Seq<char>>::empty());
    while i < names.len()
        invariant
            0 <= i <= names@.len(),
            nv == strings_view(names@),
            keep == (|n: Seq<char>| is_media_entry(n, prefix@)),
            strings_view(r@) == kept_names(nv.take(i as int), keep),
        decreases names@.len() - i,
    {
        assert(nv.take(i + 1).drop_last() =~= nv.take(i as int));
        assert(nv.take(i + 1).last() == names@[i as int]@);
        let n = names[i].as_str();
        let keep_it = str_starts_with(n, prefix) && !ends_with_slash(n);
        if keep_it {
            let ghost before = r@;
            r.push(names[i].clone());
            assert(strings_view(r@) =~= strings_view(before).push(names@[i as int]@));
        }
        i = i + 1;
    }
    assert(nv.take(i as int) =~= nv);
    r
}

/// Whether the last character is `/`.
fn ends_with_slash(s: &str) -> (b: bool)
    ensures
        b == (s@.len() >= 1 && s@.last() == '/'),
{
    let v = str_chars(s);
    v.len() >= 1 && v[v.len() - 1] == '/'
}

/// `"slide:N"`.
pub open spec fn slide_tag(n: nat) -> Seq<char> {
    "slide:"@ + decimal(n)
}

/// What a slide's `k`-th picture (counting from 1), with archive target
/// `target`, is saved as and captioned with.
pub open spec fn slide_image_request(n: nat, k: nat, target: Seq<char>, ctx: Seq<char>) -> MediaSpec {
    MediaSpec {
        source: media_zip_path(target),
        file_name: "pptx_s"@ + decimal(n) + "_img"@ + decimal(k) + ".png"@,
        caption: caption_for(ctx, "(slide "@ + decimal(n) + " image)"@),
        metadata: slide_tag(n) + ":image:"@ + decimal(k),
    }
}

/// The picture requests of the first `m` picture references of a slide:
/// those whose relationship id resolves.
pub open spec fn slide_image_requests(
    n: nat,
    embeds: Seq<Seq<char>>,
    rels: Seq<(Seq<char>, Seq<char>)>,
    ctx: Seq<char>,
    m: nat,
) -> Seq<MediaSpec>
    decreases m,
{
    if m == 0 {
        Seq::empty()
    } else {
        let rest = slide_image_requests(n, embeds, rels, ctx, (m - 1) as nat);
        match rel_target(rels, embeds[m - 1]) {
            Some(t) => rest.push(slide_image_request(n, m, t, ctx)),
            None => rest,
        }
    }
}

/// The view of a table request.
pub struct TableSpec {
    pub rows: Seq<Seq<Seq<char>>>,
    pub text: Seq<char>,
    pub media: MediaSpec,
}

pub open spec fn table_req_view(r: TableRequest) -> TableSpec {
    TableSpec { rows: rows_view(r.rows@), text: r.text@, media: r.media@ }
}

/// What a slide's `t`-th table (counting from 1) is saved as.
pub open spec fn slide_table_request(n: nat, t: nat, rows: Seq<Seq<Seq<char>>>, ctx: Seq<char>) -> TableSpec {
    TableSpec {
        rows,
        text: table_text(rows),
        media: MediaSpec {
            source: Seq::empty(),
            file_name: "pptx_s"@ + decimal(n) + "_tbl"@ + decimal(t) + ".png"@,
            caption: caption_for(ctx, "(slide "@ + decimal(n) + " table)"@),
            metadata: slide_tag(n) + ":table:"@ + decimal(t),
        },
    }
}

/// The table requests of the first `m` tables of a slide (empty ones skipped).
pub open spec fn slide_table_requests(
    n: nat,
    tables: Seq<Seq<Seq<Seq<char>>>>,
    ctx: Seq<char>,
    m: nat,
) -> Seq<TableSpec>
    decreases m,
{
    if m == 0 {
        Seq::empty()
    } else {
        let rest = slide_table_requests(n, tables, ctx, (m - 1) as nat);
        if tables[m - 1].len() > 0 {
            rest.push(slide_table_request(n, m, tables[m - 1], ctx))
        } else {
            rest
        }
    }
}

/// The pictures and tables of a slide to save to the media directory.
#[derive(Debug)]
pub struct SlidePlan {
    pub images: Vec<MediaRequest>,
    pub tables: Vec<TableRequest>,
}

pub open spec fn media_view(v: Seq<MediaRequest>) -> Seq<MediaSpec> {
    v.map_values(|m: MediaRequest| m@)
}

pub open spec fn tables_req_view(v: Seq<TableRequest>) -> Seq<TableSpec> {
    v.map_values(|t: TableRequest| table_req_view(t))
}

/// `prefix` + N + `middle` + K + `suffix`.
fn two_numbers(prefix: &str, n: usize, middle: &str, k: usize, suffix: &str) -> (s: String)
    ensures
        s@ == prefix@ + decimal(n as nat) + middle@ + decimal(k as nat) + suffix@,
{
    let mut s = string_from(prefix);
    push_decimal(&mut s, n);
    append_str(&mut s, middle);
    push_decimal(&mut s, k);
    append_str(&mut s, suffix);
    s
}

/// A caption for a slide's media: the slide context, or `(slide N what)`.
fn slide_caption(ctx: &str, n: usize, what: &str) -> (c: String)
    ensures
        c@ == caption_for(ctx@, "(slide "@ + decimal(n as nat) + what@),
{
    if ctx.is_empty() {
        let mut c = string_from("(slide ");
        push_decimal(&mut c, n);
        append_str(&mut c, what);
        c
    } else {
        caption_of(ctx)
    }
}

/// Adds a slide's text, trimmed, as a section and a text element, unless
/// it is blank.
pub fn add_slide_text(b: &mut DocBuilder, slide_num: usize, content: &SlideContent)
    ensures
        trim(content.text@).len() > 0 ==> final(b)@.sections == old(b)@.sections.push(
            BlockSpec { text: trim(content.text@), metadata: slide_tag(slide_num as nat) },
        ) && final(b)@.elements == old(b)@.elements.push(
            text_element(trim(content.text@), slide_tag(slide_num as nat)),
        ),
        trim(content.text@).len() == 0 ==> final(b)@ == old(b)@,
{
    let t = trim_str(content.text.as_str());
    if !t.as_str().is_empty() {
        b.push_section(t.clone(), new_tagged("slide:", slide_num));
        b.push_element(new_text_element(t.as_str(), new_tagged("slide:", slide_num)));
    }
}

/// The pictures (resolved through the slide's relationships) and tables of
/// a slide to save, when there is a media directory to save them in.
pub fn plan_slide(
    slide_num: usize,
    content: &SlideContent,
    rels: &Vec<Relationship>,
    with_media: bool,
) -> (plan: SlidePlan)
    ensures
        media_view(plan.images@) == if with_media {
            slide_image_requests(
                slide_num as nat,
                content@.embeds,
                rels_view(rels@),
                caption_prefix(content@.text),
                content@.embeds.len(),
            )
        } else {
            Seq::empty()
        },
        tables_req_view(plan.tables@) == if with_media {
            slide_table_requests(
                slide_num as nat,
                content@.tables,
                caption_prefix(content@.text),
                content@.tables.len(),
            )
        } else {
            Seq::empty()
        },
{
    let mut images: Vec<MediaRequest> = Vec::new();
    let mut tables: Vec<TableRequest> = Vec::new();
    assert(media_view(images@) =~= Seq::<MediaSpec>::empty());
    assert(tables_req_view(tables@) =~= Seq::<TableSpec>::empty());
    if !with_media {
        return SlidePlan { images, tables };
    }
    let ctx = caption_of(content.text.as_str());
    let ghost ev = content@.embeds;
    let ghost rv = rels_view(rels@);
    let mut k: usize = 0;
    while k < content.image_embed_ids.len()
        invariant
            0 <= k <= ev.len(),
            ev == content@.embeds,
            ev.len() == content.image_embed_ids@.len(),
            rv == rels_view(rels@),
            ctx@ == caption_prefix(content@.text),
            media_view(images@) == slide_image_requests(slide_num as nat, ev, rv, ctx@, k as nat),
        decreases ev.len() - k,
    {
        assert(ev[k as int] == content.image_embed_ids@[k as int]@);
        match relationship_target(rels, content.image_embed_ids[k].as_str()) {
            Some(target) => {
                let req = MediaRequest {
                    source: resolve_media_path(target.as_str()),
                    file_name: two_numbers("pptx_s", slide_num, "_img", k + 1, ".png"),
                    caption: slide_caption(ctx.as_str(), slide_num, " image)"),
                    metadata: two_numbers("slide:", slide_num, ":image:", k + 1, ""),
                };
                let ghost before = images@;
                images.push(req);
                proof {
                    reveal_strlit("");
                    assert(""@ =~= Seq::<char>::empty());
                }
                assert(media_view(images@) =~= media_view(before).push(
                    slide_image_request(slide_num as nat, (k + 1) as nat, target@, ctx@),
                ));
            },
            None => {},
        }
        k = k + 1;
    }
    let ghost tv = content@.tables;
    let mut t: usize = 0;
    while t < content.tables.len()
        invariant
            0 <= t <= tv.len(),
            tv == content@.tables,
            tv.len() == content.tables@.len(),
            ctx@ == caption_prefix(content@.text),
            media_view(images@) == slide_image_requests(slide_num as nat, ev, rv, ctx@, ev.len()),
            tables_req_view(tables@) == slide_table_requests(slide_num as nat, tv, ctx@, t as nat),
        decreases tv.len() - t,
    {
        let table = &content.tables[t];
        assert(tv[t as int] == rows_view(table@));
        if table.len() > 0 {
            let req = TableRequest {
                rows: clone_table(table),
                text: table_text_of(table),
                media: MediaRequest {
                    source: String::new(),
                    file_name: two_numbers("pptx_s", slide_num, "_tbl", t + 1, ".png"),
                    caption: slide_caption(ctx.as_str(), slide_num, " table)"),
                    metadata: two_numbers("slide:", slide_num, ":table:", t + 1, ""),
                },
            };
            let ghost before = tables@;
            tables.push(req);
            proof {
                reveal_strlit("");
                assert(""@ =~= Seq::<char>::empty());
            }
            assert(tables_req_view(tables@) =~= tables_req_view(before).push(
                slide_table_request(slide_num as nat, (t + 1) as nat, tv[t as int], ctx@),
            ));
        }
        t = t + 1;
    }
    SlidePlan { images, tables }
}

/// What the `i`-th media file of the archive (counting from 1) is saved as
/// when picked up without a slide.
pub open spec fn fallback_image_request(i: nat, name: Seq<char>) -> MediaSpec {
    MediaSpec {
        source: name,
        file_name: "pptx_s"@ + decimal(0) + "_img"@ + decimal(i) + ".png"@,
        caption: caption_prefix("(presentation image)"@),
        metadata: "slide:"@ + decimal(0) + ":image:"@ + decimal(i),
    }
}

/// The request for a media file of the archive that no slide names.
pub fn fallback_image(i: usize, media_name: &str) -> (req: MediaRequest)
    ensures
        req@ == fallback_image_request(i as nat, media_name@),
{
    proof {
        reveal_strlit("");
        assert(""@ =~= Seq::<char>::empty());
    }
    MediaRequest {
        source: string_from(media_name),
        file_name: two_numbers("pptx_s", 0, "_img", i, ".png"),
        caption: caption_of("(presentation image)"),
        metadata: two_numbers("slide:", 0, ":image:", i, ""),
    }
}

/// The sources of a list of media requests.
pub open spec fn request_sources(v: Seq<MediaSpec>) -> Seq<Seq<char>> {
    v.map_values(|m: MediaSpec| m.source)
}

/// Records the archive entries a slide's pictures are taken from: they are
/// handled, and the presentation-wide pass leaves them alone.
pub fn note_handled(handled: &mut Vec<String>, plan: &SlidePlan)
    ensures
        strings_view(final(handled)@) == strings_view(old(handled)@) + request_sources(
            media_view(plan.images@),
        ),
{
    let ghost start = strings_view(handled@);
    let ghost srcs = request_sources(media_view(plan.images@));
    let mut k: usize = 0;
    while k < plan.images.len()
        invariant
            0 <= k <= plan.images@.len(),
            srcs == request_sources(media_view(plan.images@)),
            strings_view(handled@) == start + srcs.take(k as int),
        decreases plan.images@.len() - k,
    {
        let ghost before = handled@;
        handled.push(plan.images[k].source.clone());
        assert(srcs[k as int] == plan.images@[k as int].source@);
        assert(srcs.take(k + 1) =~= srcs.take(k as int).push(srcs[k as int]));
        assert(strings_view(handled@) =~= strings_view(before).push(srcs[k as int]));
        k = k + 1;
    }
    assert(srcs.take(k as int) =~= srcs);
}

/// The media files of the archive that no slide handled, in archive order,
/// each requested as the fallback picture of its position (counting from 1).
pub open spec fn fallback_requests(media: Seq<Seq<char>>, handled: Seq<Seq<char>>) -> Seq<MediaSpec>
    decreases media.len(),
{
    if media.len() == 0 {
        Seq::empty()
    } else {
        let prev = fallback_requests(media.drop_last(), handled);
        if handled.contains(media.last()) {
            prev
        } else {
            prev.push(fallback_image_request(media.len(), media.last()))
        }
    }
}

/// Whether `s` is one of `v`.
fn contains_string(v: &Vec<String>, s: &str) -> (b: bool)
    ensures
        b == strings_view(v@).contains(s@),
{
    let ghost sv = strings_view(v@);
    let mut i: usize = 0;
    while i < v.len()
        invariant
            0 <= i <= v@.len(),
            sv == strings_view(v@),
            forall|j: int| 0 <= j < i ==> sv[j] != s@,
        decreases v@.len() - i,
    {
        if str_eq(v[i].as_str(), s) {
            assert(sv[i as int] == s@);
            return true;
        }
        i = i + 1;
    }
    false
}

/// The requests for the media files that no slide handled: the
/// presentation-wide pass picks up only pictures not already taken.
pub fn fallback_images(media_files: &Vec<String>, handled: &Vec<String>) -> (reqs: Vec<MediaRequest>)
    requires
        media_files@.len() < usize::MAX,
    ensures
        media_view(reqs@) == fallback_requests(strings_view(media_files@), strings_view(handled@)),
{
    let ghost mv = strings_view(media_files@);
    let ghost hv = strings_view(handled@);
    let mut reqs: Vec<MediaRequest> = Vec::new();
    let mut i: usize = 0;
    assert(mv.take(0) =~= Seq::<Seq<char>>::empty());
    assert(media_view(reqs@) =~= Seq::<MediaSpec>::empty());
    while i < media_files.len()
        invariant
            0 <= i <= media_files@.len(),
            media_files@.len() < usize::MAX,
            mv == strings_view(media_files@),
            hv == strings_view(handled@),
            media_view(reqs@) == fallback_requests(mv.take(i as int), hv),
        decreases media_files@.len() - i,
    {
        assert(mv.take(i + 1).drop_last() =~= mv.take(i as int));
        assert(mv.take(i + 1).last() == media_files@[i as int]@);
        if !contains_string(handled, media_files[i].as_str()) {
            let ghost before = reqs@;
            let req = fallback_image(i + 1, media_files[i].as_str());
            reqs.push(req);
            assert(media_view(reqs@) =~= media_view(before).push(req@));
        }
        i = i + 1;
    }
    assert(mv.take(i as int) =~= mv);
    reqs
}

/// The presentation-wide pass takes no picture a slide already handled,
/// and each file it takes is one of the archive's media files.
pub proof fn lemma_fallback_skips_handled(media: Seq<Seq<char>>, handled: Seq<Seq<char>>)
    ensures
        forall|j: int| 0 <= j < fallback_requests(media, handled).len() ==> {
            &&& !handled.contains(#[trigger] fallback_requests(media, handled)[j].source)
            &&& media.contains(fallback_requests(media, handled)[j].source)
        },
    decreases media.len(),
{
    if media.len() > 0 {
        let prev = media.drop_last();
        lemma_fallback_skips_handled(prev, handled);
        let r = fallback_requests(media, handled);
        let pr = fallback_requests(prev, handled);
        assert forall|j: int| 0 <= j < r.len() implies {
            &&& !handled.contains(#[trigger] r[j].source)
            &&& media.contains(r[j].source)
        } by {
            if j < pr.len() {
                assert(r[j] == pr[j]);
                let k = choose|k: int| 0 <= k < prev.len() && prev[k] == pr[j].source;
                assert(media[k] == prev[k]);
            } else {
                assert(r[j].source == media.last());
                assert(media[media.len() - 1] == media.last());
            }
        }
    }
}

/// Every media file that no slide handled gets its fallback request, named
/// after its position in the archive's media files (counting from 1), and
/// there is one request per such file.
pub proof fn lemma_fallback_takes_every_unhandled(media: Seq<Seq<char>>, handled: Seq<Seq<char>>)
    ensures
        forall|i: int| 0 <= i < media.len() && !handled.contains(#[trigger] media[i]) ==> fallback_requests(
            media,
            handled,
        ).contains(fallback_image_request((i + 1) as nat, media[i])),
        fallback_requests(media, handled).len() == media.filter(|m: Seq<char>| !handled.contains(m)).len(),
    decreases media.len(),
{
    reveal(Seq::filter);
    if media.len() > 0 {
        let prev = media.drop_last();
        lemma_fallback_takes_every_unhandled(prev, handled);
        let r = fallback_requests(media, handled);
        let pr = fallback_requests(prev, handled);
        assert forall|i: int| 0 <= i < media.len() && !handled.contains(#[trigger] media[i]) implies r.contains(
            fallback_image_request((i + 1) as nat, media[i]),
        ) by {
            if i < media.len() - 1 {
                assert(media[i] == prev[i]);
                let k = choose|k: int| 0 <= k < pr.len() && pr[k] == fallback_image_request((i + 1) as nat, prev[i]);
                assert(r[k] == pr[k]);
            } else {
                assert(media.last() == media[i]);
                assert(r[r.len() - 1] == fallback_image_request(media.len(), media.last()));
            }
        }
        reveal(Seq::filter);
    }
}

proof fn lemma_digit_char(k: nat)
    requires
        k < 10,
    ensures
        is_digit(digit_char(k)),
        (digit_char(k) as int) - ('0' as int) == k,
{
}

proof fn lemma_decimal_digits(n: nat)
    ensures
        decimal(n).len() >= 1,
        all_digits(decimal(n)),
        digits_value(decimal(n)) == n,
    decreases n,
{
    if n < 10 {
        lemma_digit_char(n);
        let d = decimal(n);
        assert(d.drop_last() =~= Seq::<char>::empty());
        assert(digits_value(Seq::<char>::empty()) == 0);
    } else {
        lemma_digit_char(n % 10);
        lemma_decimal_digits(n / 10);
        let d = decimal(n);
        assert(d.drop_last() =~= decimal(n / 10));
        assert forall|i: int| 0 <= i < d.len() implies is_digit(#[trigger] d[i]) by {
            if i < d.len() - 1 {
                assert(d[i] == decimal(n / 10)[i]);
            }
        }
        assert(d.last() == digit_char(n % 10));
        assert(digits_value(d) == digits_value(decimal(n / 10)) * 10 + ((d.last() as int) - ('0' as int)) as nat);
    }
}

/// A slide entry named from its number gives that number back:
/// `ppt/slides/slideN.xml` reads as N.
pub proof fn lemma_slide_number_of_name(n: u32)
    ensures
        slide_number("ppt/slides/slide"@ + decimal(n as nat) + ".xml"@) == n,
{
    reveal_strlit("ppt/slides/slide");
    reveal_strlit(".xml");
    let pre = "ppt/slides/slide"@;
    let suf = ".xml"@;
    let d = decimal(n as nat);
    lemma_decimal_digits(n as nat);
    let name = pre + d + suf;
    assert(name.take(pre.len() as int) =~= pre);
    assert(name.skip(pre.len() as int) =~= d + suf);
    let rest = d + suf;
    assert(is_digit(rest[0]));
    if pre.len() <= rest.len() {
        assert(rest.take(pre.len() as int)[0] != pre[0]);
    }
    assert(strip_prefixes(rest, pre) == rest);
    assert(strip_prefixes(name, pre) == rest);
    assert(rest.skip(rest.len() - suf.len()) =~= suf);
    assert(rest.take(rest.len() - suf.len()) =~= d);
    if suf.len() <= d.len() {
        assert(is_digit(d[d.len() - 1]));
        assert(d.skip(d.len() - suf.len())[suf.len() - 1] == d[d.len() - 1]);
    }
    assert(strip_suffixes(d, suf) == d);
    assert(strip_suffixes(rest, suf) == d);
    assert(d[0] != '+');
    assert(spec_parse_u32(d) == parse_digits(d));
}

/// Relationship ids behave as a map filled in order: the target of the id
/// declared last is what it was declared with, and other ids keep theirs.
pub proof fn lemma_rel_target_declared_last(
    pairs: Seq<(Seq<char>, Seq<char>)>,
    id: Seq<char>,
    target: Seq<char>,
    other: Seq<char>,
)
    ensures
        rel_target(pairs.push((id, target)), id) == Some(target),
        other != id ==> rel_target(pairs.push((id, target)), other) == rel_target(pairs, other),
{
    assert(pairs.push((id, target)).drop_last() =~= pairs);
}

} // verus!

