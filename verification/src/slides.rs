//! PPTX slide contents: text runs, picture references and tables read from
//! the slide XML, and the slide relationships that resolve the pictures.
use vstd::prelude::*;
use crate::text::{rows_view, strings_view, trim, trim_str};
use crate::xml_events::{
    items_view, seq_contains, str_contains, xml_event_items, xml_events, XmlAttr, XmlItem,
    XmlItemSpec,
};
use crate::script::str_eq;

verus! {

/// What a slide holds: its text (each run followed by a space), the
/// relationship ids of its pictures, and its tables (table, row, cell).
#[derive(Debug)]
pub struct SlideContent {
    pub text: String,
    pub image_embed_ids: Vec<String>,
    pub tables: Vec<Vec<Vec<String>>>,
}

/// The reading state while walking a slide's events.
pub struct SlideScan {
    pub text: Seq<char>,
    pub embeds: Seq<Seq<char>>,
    pub tables: Seq<Seq<Seq<Seq<char>>>>,
    pub in_text: bool,
    pub in_table: bool,
    pub table: Seq<Seq<Seq<char>>>,
    pub row: Seq<Seq<char>>,
    pub cell: Seq<char>,
    pub in_cell: bool,
    pub stopped: bool,
}

/// The state before any event.
pub open spec fn scan_start() -> SlideScan {
    SlideScan {
        text: Seq::empty(),
        embeds: Seq::empty(),
        tables: Seq::empty(),
        in_text: false,
        in_table: false,
        table: Seq::empty(),
        row: Seq::empty(),
        cell: Seq::empty(),
        in_cell: false,
        stopped: false,
    }
}

/// The namespace is DrawingML's.
pub open spec fn is_drawingml(ns: Option<Seq<char>>) -> bool {
    match ns {
        Some(n) => seq_contains(n, "drawingml"@),
        None => false,
    }
}

/// The values of the attributes named `embed`, in order.
pub open spec fn embed_values(attrs: Seq<(Seq<char>, Seq<char>)>) -> Seq<Seq<char>>
    decreases attrs.len(),
{
    if attrs.len() == 0 {
        Seq::empty()
    } else {
        let rest = embed_values(attrs.drop_last());
        if attrs.last().0 == "embed"@ {
            rest.push(attrs.last().1)
        } else {
            rest
        }
    }
}

/// How one event changes the reading state: `a:t` elements carry text,
/// `blip` elements name pictures, and `a:tbl` / `tr` / `tc` build tables;
/// an error ends the reading.
pub open spec fn scan_step(s: SlideScan, e: XmlItemSpec) -> SlideScan {
    if s.stopped {
        s
    } else {
        match e {
            XmlItemSpec::Start { local, namespace, attrs } => {
                if local == "t"@ && is_drawingml(namespace) {
                    SlideScan { in_text: true, ..s }
                } else if local == "blip"@ {
                    SlideScan { embeds: s.embeds + embed_values(attrs), ..s }
                } else if local == "tbl"@ && is_drawingml(namespace) {
                    SlideScan { in_table: true, table: Seq::empty(), ..s }
                } else if local == "tr"@ && s.in_table {
                    SlideScan { row: Seq::empty(), ..s }
                } else if local == "tc"@ && s.in_table {
                    SlideScan { in_cell: true, cell: Seq::empty(), ..s }
                } else {
                    s
                }
            },
            XmlItemSpec::End { local } => {
                if local == "t"@ {
                    SlideScan { in_text: false, ..s }
                } else if local == "tbl"@ {
                    SlideScan {
                        tables: if s.in_table && s.table.len() > 0 {
                            s.tables.push(s.table)
                        } else {
                            s.tables
                        },
                        in_table: false,
                        ..s
                    }
                } else if local == "tr"@ && s.in_table {
                    SlideScan {
                        table: if s.row.len() > 0 {
                            s.table.push(s.row)
                        } else {
                            s.table
                        },
                        ..s
                    }
                } else if local == "tc"@ && s.in_table {
                    SlideScan { row: s.row.push(trim(s.cell)), in_cell: false, ..s }
                } else {
                    s
                }
            },
            XmlItemSpec::Characters(c) => scan_text(s, c),
            XmlItemSpec::CData(c) => scan_text(s, c),
            XmlItemSpec::Error => SlideScan { stopped: true, ..s },
            XmlItemSpec::Other => s,
        }
    }
}

/// Character data inside `a:t` goes to the current cell in a table, and to
/// the slide text, followed by a space, elsewhere.
pub open spec fn scan_text(s: SlideScan, c: Seq<char>) -> SlideScan {
    if s.in_text {
        if s.in_cell {
            SlideScan { cell: s.cell + c, ..s }
        } else {
            SlideScan { text: s.text + c + " "@, ..s }
        }
    } else {
        s
    }
}

/// The state after the first `n` events.
pub open spec fn scan_prefix(items: Seq<XmlItemSpec>, n: nat) -> SlideScan
    decreases n,
{
    if n == 0 || n > items.len() {
        scan_start()
    } else {
        scan_step(scan_prefix(items, (n - 1) as nat), items[n - 1])
    }
}

/// The view of a slide's contents.
pub struct SlideSpec {
    pub text: Seq<char>,
    pub embeds: Seq<Seq<char>>,
    pub tables: Seq<Seq<Seq<Seq<char>>>>,
}

/// The contents read from a slide's events.
pub open spec fn slide_of_items(items: Seq<XmlItemSpec>) -> SlideSpec {
    let s = scan_prefix(items, items.len());
    SlideSpec { text: s.text, embeds: s.embeds, tables: s.tables }
}

pub open spec fn tables_view(v: Seq<Vec<Vec<String>>>) -> Seq<Seq<Seq<Seq<char>>>> {
    v.map_values(|t: Vec<Vec<String>>| rows_view(t@))
}

impl View for SlideContent {
    type V = SlideSpec;

    open spec fn view(&self) -> SlideSpec {
        SlideSpec {
            text: self.text@,
            embeds: strings_view(self.image_embed_ids@),
            tables: tables_view(self.tables@),
        }
    }
}

/// A copy of a row of cells.
pub fn clone_row(r: &Vec<String>) -> (c: Vec<String>)
    ensures
        strings_view(c@) == strings_view(r@),
{
    let mut c: Vec<String> = Vec::new();
    let mut i: usize = 0;
    while i < r.len()
        invariant
            0 <= i <= r@.len(),
            strings_view(c@) == strings_view(r@.take(i as int)),
        decreases r@.len() - i,
    {
        let ghost before = c@;
        c.push(r[i].clone());
        assert(strings_view(c@) =~= strings_view(before).push(r@[i as int]@));
        assert(strings_view(r@.take(i + 1)) =~= strings_view(r@.take(i as int)).push(r@[i as int]@));
        i = i + 1;
    }
    assert(r@.take(i as int) =~= r@);
    c
}

/// A copy of a table.
pub fn clone_table(t: &Vec<Vec<String>>) -> (c: Vec<Vec<String>>)
    ensures
        rows_view(c@) == rows_view(t@),
{
    let mut c: Vec<Vec<String>> = Vec::new();
    let mut i: usize = 0;
    while i < t.len()
        invariant
            0 <= i <= t@.len(),
            rows_view(c@) == rows_view(t@.take(i as int)),
        decreases t@.len() - i,
    {
        let ghost before = c@;
        let row = clone_row(&t[i]);
        c.push(row);
        assert(rows_view(c@) =~= rows_view(before).push(strings_view(t@[i as int]@)));
        assert(rows_view(t@.take(i + 1)) =~= rows_view(t@.take(i as int)).push(
            strings_view(t@[i as int]@),
        ));
        i = i + 1;
    }
    assert(t@.take(i as int) =~= t@);
    c
}

/// Whether a namespace is DrawingML's.
fn drawingml(ns: &Option<String>) -> (b: bool)
    ensures
        b == is_drawingml(
            match ns {
                Some(n) => Some(n@),
                None => None,
            },
        ),
{
    match ns {
        Some(n) => str_contains(n.as_str(), "drawingml"),
        None => false,
    }
}

/// Appends the values of the `embed` attributes to `out`.
fn push_embeds(out: &mut Vec<String>, attrs: &Vec<XmlAttr>)
    ensures
        strings_view(final(out)@) == strings_view(old(out)@) + embed_values(
            attrs@.map_values(|a: XmlAttr| a@),
        ),
{
    let ghost av = attrs@.map_values(|a: XmlAttr| a@);
    let ghost start = strings_view(out@);
    let mut i: usize = 0;
    assert(av.take(0) =~= Seq::<(Seq<char>, Seq<char>)>::empty());
    assert(start + embed_values(av.take(0)) =~= start);
    while i < attrs.len()
        invariant
            0 <= i <= attrs@.len(),
            av == attrs@.map_values(|a: XmlAttr| a@),
            strings_view(out@) == start + embed_values(av.take(i as int)),
        decreases attrs@.len() - i,
    {
        let a = &attrs[i];
        assert(av.take(i + 1).drop_last() =~= av.take(i as int));
        assert(av.take(i + 1).last() == a@);
        if str_eq(a.local.as_str(), "embed") {
            let ghost before = out@;
            out.push(a.value.clone());
            assert(strings_view(out@) =~= strings_view(before).push(a.value@));
        }
        i = i + 1;
    }
    assert(av.take(i as int) =~= av);
}

/// Reads a slide's contents from its XML events.
pub fn scan_slide_items(items: &Vec<XmlItem>) -> (content: SlideContent)
    ensures
        content@ == slide_of_items(items_view(items@)),
{
    let ghost iv = items_view(items@);
    let mut text = String::new();
    let mut embeds: Vec<String> = Vec::new();
    let mut tables: Vec<Vec<Vec<String>>> = Vec::new();
    let mut in_text = false;
    let mut in_table = false;
    let mut table: Vec<Vec<String>> = Vec::new();
    let mut row: Vec<String> = Vec::new();
    let mut cell = String::new();
    let mut in_cell = false;
    let mut i: usize = 0;
    assert(strings_view(embeds@) =~= Seq::<Seq<char>>::empty());
    assert(tables_view(tables@) =~= Seq::<Seq<Seq<Seq<char>>>>::empty());
    assert(rows_view(table@) =~= Seq::<Seq<Seq<char>>>::empty());
    assert(strings_view(row@) =~= Seq::<Seq<char>>::empty());
    while i < items.len()
        invariant
            0 <= i <= items@.len(),
            iv == items_view(items@),
            scan_prefix(iv, i as nat) == (SlideScan {
                text: text@,
                embeds: strings_view(embeds@),
                tables: tables_view(tables@),
                in_text,
                in_table,
                table: rows_view(table@),
                row: strings_view(row@),
                cell: cell@,
                in_cell,
                stopped: false,
            }),
        ensures
            i < items@.len() ==> iv[i as int] == XmlItemSpec::Error,
        decreases items@.len() - i,
    {
        let ghost st = scan_prefix(iv, i as nat);
        assert(iv[i as int] == items@[i as int]@);
        assert(scan_prefix(iv, (i + 1) as nat) == scan_step(st, iv[i as int]));
        match &items[i] {
            XmlItem::Start { local, namespace, attrs } => {
                let l = local.as_str();
                if str_eq(l, "t") && drawingml(namespace) {
                    in_text = true;
                } else if str_eq(l, "blip") {
                    push_embeds(&mut embeds, attrs);
                } else if str_eq(l, "tbl") && drawingml(namespace) {
                    in_table = true;
                    table = Vec::new();
                    assert(rows_view(table@) =~= Seq::<Seq<Seq<char>>>::empty());
                } else if str_eq(l, "tr") && in_table {
                    row = Vec::new();
                    assert(strings_view(row@) =~= Seq::<Seq<char>>::empty());
                } else if str_eq(l, "tc") && in_table {
                    in_cell = true;
                    cell = String::new();
                }
            },
            XmlItem::End { local } => {
                let l = local.as_str();
                if str_eq(l, "t") {
                    in_text = false;
                } else if str_eq(l, "tbl") {
                    if in_table && table.len() > 0 {
                        let ghost before = tables@;
                        tables.push(clone_table(&table));
                        assert(tables_view(tables@) =~= tables_view(before).push(rows_view(table@)));
                    }
                    in_table = false;
                } else if str_eq(l, "tr") && in_table {
                    if row.len() > 0 {
                        let ghost before = table@;
                        table.push(clone_row(&row));
                        assert(rows_view(table@) =~= rows_view(before).push(strings_view(row@)));
                    }
                } else if str_eq(l, "tc") && in_table {
                    let ghost before = row@;
                    row.push(trim_str(cell.as_str()));
                    assert(strings_view(row@) =~= strings_view(before).push(trim(cell@)));
                    in_cell = false;
                }
            },
            XmlItem::Characters(c) | XmlItem::CData(c) => {
                if in_text {
                    if in_cell {
                        crate::text::append_str(&mut cell, c.as_str());
                    } else {
                        crate::text::append_str(&mut text, c.as_str());
                        crate::text::append_str(&mut text, " ");
                    }
                }
            },
            XmlItem::Error => {
                break;
            },
            XmlItem::Other => {},
        }
        i = i + 1;
    }
    proof {
        lemma_scan_stopped_stays(iv, i as nat);
    }
    SlideContent { text, image_embed_ids: embeds, tables }
}

/// Once an error has stopped the reading, later events change nothing.
proof fn lemma_scan_stopped_stays(items: Seq<XmlItemSpec>, n: nat)
    requires
        n <= items.len(),
        n < items.len() ==> items[n as int] == XmlItemSpec::Error,
        !scan_prefix(items, n).stopped,
    ensures
        slide_of_items(items) == (SlideSpec {
            text: scan_prefix(items, n).text,
            embeds: scan_prefix(items, n).embeds,
            tables: scan_prefix(items, n).tables,
        }),
{
    if n < items.len() {
        lemma_scan_stopped_from(items, n, items.len());
    }
}

proof fn lemma_scan_stopped_from(items: Seq<XmlItemSpec>, n: nat, m: nat)
    requires
        n < m <= items.len(),
        items[n as int] == XmlItemSpec::Error,
        !scan_prefix(items, n).stopped,
    ensures
        scan_prefix(items, m) == (SlideScan { stopped: true, ..scan_prefix(items, n) }),
    decreases m,
{
    if m > n + 1 {
        lemma_scan_stopped_from(items, n, (m - 1) as nat);
    }
}

/// The state after reading `items` from state `s`.
pub open spec fn scan_run(s: SlideScan, items: Seq<XmlItemSpec>) -> SlideScan
    decreases items.len(),
{
    if items.len() == 0 {
        s
    } else {
        scan_step(scan_run(s, items.drop_last()), items.last())
    }
}

/// All the chunks, joined in order.
pub open spec fn joined(chunks: Seq<Seq<char>>) -> Seq<char>
    decreases chunks.len(),
{
    if chunks.len() == 0 {
        Seq::empty()
    } else {
        joined(chunks.drop_last()) + chunks.last()
    }
}

/// The events of one `t` element per chunk of text, in namespace `ns`.
pub open spec fn text_runs(ns: Option<Seq<char>>, chunks: Seq<Seq<char>>) -> Seq<XmlItemSpec>
    decreases chunks.len(),
{
    if chunks.len() == 0 {
        Seq::empty()
    } else {
        text_runs(ns, chunks.drop_last()) + seq![
            XmlItemSpec::Start { local: "t"@, namespace: ns, attrs: Seq::empty() },
            XmlItemSpec::Characters(chunks.last()),
            XmlItemSpec::End { local: "t"@ },
        ]
    }
}

/// The events of a table cell whose text is in the given runs.
pub open spec fn cell_events(ns: Option<Seq<char>>, chunks: Seq<Seq<char>>) -> Seq<XmlItemSpec> {
    seq![XmlItemSpec::Start { local: "tc"@, namespace: ns, attrs: Seq::empty() }] + text_runs(ns, chunks)
        + seq![XmlItemSpec::End { local: "tc"@ }]
}

/// The events of a table of one row with one cell holding the given runs.
pub open spec fn one_cell_table(ns: Option<Seq<char>>, chunks: Seq<Seq<char>>) -> Seq<XmlItemSpec> {
    seq![
        XmlItemSpec::Start { local: "tbl"@, namespace: ns, attrs: Seq::empty() },
        XmlItemSpec::Start { local: "tr"@, namespace: ns, attrs: Seq::empty() },
    ] + cell_events(ns, chunks) + seq![
        XmlItemSpec::End { local: "tr"@ },
        XmlItemSpec::End { local: "tbl"@ },
    ]
}

proof fn lemma_scan_prefix_run(items: Seq<XmlItemSpec>, n: nat)
    requires
        n <= items.len(),
    ensures
        scan_prefix(items, n) == scan_run(scan_start(), items.take(n as int)),
    decreases n,
{
    if n > 0 {
        lemma_scan_prefix_run(items, (n - 1) as nat);
        assert(items.take(n as int).drop_last() =~= items.take(n - 1));
        assert(items.take(n as int).last() == items[n - 1]);
    } else {
        assert(items.take(0) =~= Seq::<XmlItemSpec>::empty());
    }
}

proof fn lemma_scan_run_concat(s: SlideScan, a: Seq<XmlItemSpec>, b: Seq<XmlItemSpec>)
    ensures
        scan_run(s, a + b) == scan_run(scan_run(s, a), b),
    decreases b.len(),
{
    if b.len() == 0 {
        assert(a + b =~= a);
    } else {
        assert((a + b).drop_last() =~= a + b.drop_last());
        assert((a + b).last() == b.last());
        lemma_scan_run_concat(s, a, b.drop_last());
    }
}

proof fn lemma_scan_run_three(s: SlideScan, x: XmlItemSpec, y: XmlItemSpec, z: XmlItemSpec)
    ensures
        scan_run(s, seq![x, y, z]) == scan_step(scan_step(scan_step(s, x), y), z),
{
    reveal_with_fuel(scan_run, 4);
    let t = seq![x, y, z];
    assert(t.drop_last() =~= seq![x, y]);
    assert(seq![x, y].drop_last() =~= seq![x]);
    assert(seq![x].drop_last() =~= Seq::<XmlItemSpec>::empty());
}

proof fn lemma_scan_run_two(s: SlideScan, x: XmlItemSpec, y: XmlItemSpec)
    ensures
        scan_run(s, seq![x, y]) == scan_step(scan_step(s, x), y),
{
    reveal_with_fuel(scan_run, 4);
    assert(seq![x, y].drop_last() =~= seq![x]);
    assert(seq![x].drop_last() =~= Seq::<XmlItemSpec>::empty());
}

proof fn lemma_scan_run_one(s: SlideScan, x: XmlItemSpec)
    ensures
        scan_run(s, seq![x]) == scan_step(s, x),
{
    reveal_with_fuel(scan_run, 4);
    assert(seq![x].drop_last() =~= Seq::<XmlItemSpec>::empty());
}

/// Inside a table cell, each `t` run adds its text to the cell.
proof fn lemma_runs_fill_cell(s: SlideScan, ns: Option<Seq<char>>, chunks: Seq<Seq<char>>)
    requires
        is_drawingml(ns),
        !s.stopped,
        s.in_cell,
        !s.in_text,
    ensures
        scan_run(s, text_runs(ns, chunks)) == (SlideScan { cell: s.cell + joined(chunks), ..s }),
    decreases chunks.len(),
{
    if chunks.len() == 0 {
        assert(s.cell + Seq::<char>::empty() =~= s.cell);
    } else {
        let prev = chunks.drop_last();
        lemma_runs_fill_cell(s, ns, prev);
        let x = XmlItemSpec::Start { local: "t"@, namespace: ns, attrs: Seq::empty() };
        let y = XmlItemSpec::Characters(chunks.last());
        let z = XmlItemSpec::End { local: "t"@ };
        lemma_scan_run_concat(s, text_runs(ns, prev), seq![x, y, z]);
        lemma_scan_run_three(scan_run(s, text_runs(ns, prev)), x, y, z);
        assert(s.cell + joined(prev) + chunks.last() =~= s.cell + joined(chunks));
    }
}

/// Each chunk followed by a space, all joined in order.
pub open spec fn spaced(chunks: Seq<Seq<char>>) -> Seq<char>
    decreases chunks.len(),
{
    if chunks.len() == 0 {
        Seq::empty()
    } else {
        spaced(chunks.drop_last()) + chunks.last() + " "@
    }
}

/// Outside a table cell, each `t` run adds its text and a space to the
/// slide text.
proof fn lemma_runs_fill_text(s: SlideScan, ns: Option<Seq<char>>, chunks: Seq<Seq<char>>)
    requires
        is_drawingml(ns),
        !s.stopped,
        !s.in_cell,
        !s.in_text,
    ensures
        scan_run(s, text_runs(ns, chunks)) == (SlideScan { text: s.text + spaced(chunks), ..s }),
    decreases chunks.len(),
{
    if chunks.len() == 0 {
        assert(s.text + Seq::<char>::empty() =~= s.text);
    } else {
        let prev = chunks.drop_last();
        lemma_runs_fill_text(s, ns, prev);
        let x = XmlItemSpec::Start { local: "t"@, namespace: ns, attrs: Seq::empty() };
        let y = XmlItemSpec::Characters(chunks.last());
        let z = XmlItemSpec::End { local: "t"@ };
        lemma_scan_run_concat(s, text_runs(ns, prev), seq![x, y, z]);
        lemma_scan_run_three(scan_run(s, text_runs(ns, prev)), x, y, z);
        assert(s.text + spaced(prev) + chunks.last() + " "@ =~= s.text + spaced(chunks));
    }
}

/// A slide made of text runs alone reads as every run, in order, each
/// followed by a space, with no table and no picture.
pub proof fn lemma_slide_text_is_all_runs(ns: Option<Seq<char>>, chunks: Seq<Seq<char>>)
    requires
        is_drawingml(ns),
    ensures
        slide_of_items(text_runs(ns, chunks)).text == spaced(chunks),
        slide_of_items(text_runs(ns, chunks)).tables.len() == 0,
        slide_of_items(text_runs(ns, chunks)).embeds.len() == 0,
{
    let items = text_runs(ns, chunks);
    lemma_scan_prefix_run(items, items.len());
    assert(items.take(items.len() as int) =~= items);
    lemma_runs_fill_text(scan_start(), ns, chunks);
    assert(Seq::<char>::empty() + spaced(chunks) =~= spaced(chunks));
}

/// A table cell read in a table adds one cell to the current row: the
/// trimmed text of all its runs, joined in order.
pub proof fn lemma_cell_is_all_its_runs(s: SlideScan, ns: Option<Seq<char>>, chunks: Seq<Seq<char>>)
    requires
        is_drawingml(ns),
        !s.stopped,
        s.in_table,
        !s.in_text,
    ensures
        scan_run(s, cell_events(ns, chunks)).row == s.row.push(trim(joined(chunks))),
        scan_run(s, cell_events(ns, chunks)).table == s.table,
        scan_run(s, cell_events(ns, chunks)).in_table,
        !scan_run(s, cell_events(ns, chunks)).in_text,
        !scan_run(s, cell_events(ns, chunks)).stopped,
        scan_run(s, cell_events(ns, chunks)).tables == s.tables,
{
    reveal_strlit("t");
    reveal_strlit("tc");
    reveal_strlit("tr");
    reveal_strlit("tbl");
    reveal_strlit("blip");
    assert("t"@.len() == 1 && "tc"@.len() == 2 && "tr"@.len() == 2 && "tbl"@.len() == 3
        && "blip"@.len() == 4);
    assert("tc"@ != "t"@ && "tc"@ != "blip"@ && "tc"@ != "tbl"@);
    assert("tc"@ != "tr"@) by {
        assert("tc"@[1] != "tr"@[1]);
    }
    let x = XmlItemSpec::Start { local: "tc"@, namespace: ns, attrs: Seq::empty() };
    let z = XmlItemSpec::End { local: "tc"@ };
    let r = text_runs(ns, chunks);
    lemma_scan_run_one(s, x);
    let s1 = scan_step(s, x);
    assert(s1 == (SlideScan { in_cell: true, cell: Seq::empty(), ..s }));
    lemma_runs_fill_cell(s1, ns, chunks);
    let s2 = scan_run(s1, r);
    assert(Seq::<char>::empty() + joined(chunks) =~= joined(chunks));
    assert(s2.cell == joined(chunks));
    lemma_scan_run_one(s2, z);
    lemma_scan_run_concat(s, seq![x], r);
    lemma_scan_run_concat(s, seq![x] + r, seq![z]);
}

/// A slide whose only table has one row with one cell reads that table
/// with the cell's text: all its runs, joined in order, then trimmed.
pub proof fn lemma_one_cell_table(ns: Option<Seq<char>>, chunks: Seq<Seq<char>>)
    requires
        is_drawingml(ns),
    ensures
        slide_of_items(one_cell_table(ns, chunks)).tables == seq![seq![seq![trim(joined(chunks))]]],
{
    reveal_strlit("t");
    reveal_strlit("tc");
    reveal_strlit("tr");
    reveal_strlit("tbl");
    reveal_strlit("blip");
    assert("t"@.len() == 1 && "tc"@.len() == 2 && "tr"@.len() == 2 && "tbl"@.len() == 3
        && "blip"@.len() == 4);
    assert("tr"@ != "t"@ && "tr"@ != "blip"@ && "tr"@ != "tbl"@);
    assert("tbl"@ != "t"@ && "tbl"@ != "blip"@);
    let items = one_cell_table(ns, chunks);
    let head = seq![
        XmlItemSpec::Start { local: "tbl"@, namespace: ns, attrs: Seq::empty() },
        XmlItemSpec::Start { local: "tr"@, namespace: ns, attrs: Seq::empty() },
    ];
    let tail = seq![XmlItemSpec::End { local: "tr"@ }, XmlItemSpec::End { local: "tbl"@ }];
    let c = cell_events(ns, chunks);
    lemma_scan_prefix_run(items, items.len());
    assert(items.take(items.len() as int) =~= items);
    lemma_scan_run_concat(scan_start(), head + c, tail);
    lemma_scan_run_concat(scan_start(), head, c);
    lemma_scan_run_two(scan_start(), head[0], head[1]);
    let s0 = scan_run(scan_start(), head);
    assert(s0.in_table && !s0.stopped && !s0.in_text);
    assert(s0.row == Seq::<Seq<char>>::empty());
    assert(s0.table == Seq::<Seq<Seq<char>>>::empty());
    assert(s0.tables == Seq::<Seq<Seq<Seq<char>>>>::empty());
    lemma_cell_is_all_its_runs(s0, ns, chunks);
    let s1 = scan_run(s0, c);
    assert(Seq::<Seq<char>>::empty().push(trim(joined(chunks))) =~= seq![trim(joined(chunks))]);
    lemma_scan_run_two(s1, tail[0], tail[1]);
    assert(Seq::<Seq<Seq<char>>>::empty().push(seq![trim(joined(chunks))]) =~= seq![
        seq![trim(joined(chunks))],
    ]);
    assert(Seq::<Seq<Seq<Seq<char>>>>::empty().push(seq![seq![trim(joined(chunks))]]) =~= seq![
        seq![seq![trim(joined(chunks))]],
    ]);
}

/// Parse slide XML, extracting text, picture references and tables.
pub fn parse_slide_xml(xml: &str) -> (content: SlideContent)
    ensures
        content@ == slide_of_items(xml_event_items(xml@)),
{
    let items = xml_events(xml);
    scan_slide_items(&items)
}

} // verus!
