//! Renderers: format-specific consumers of the traversal stream. All of them
//! are driven by the same engine output ([`WalkItem`] sequence) and differ
//! only in how they serialize it.

use vstd::prelude::*;
use crate::config::Cli;
use crate::engine::{items_view, WalkItem, WalkItemV};
use crate::meta::{spec_kind_label, entry_kind_label, Entry, EntryV};
use crate::text::{dec_digits, push_char, str_contains_char, u64_to_dec};

verus! {

/// The entries a stream carries, in emission order.
pub open spec fn items_entries(items: Seq<WalkItemV>) -> Seq<EntryV> {
    items.map_values(|it: WalkItemV| it.entry)
}

/// Concatenation of text fragments, in order.
pub open spec fn concat_texts(parts: Seq<Seq<char>>) -> Seq<char>
    decreases parts.len(),
{
    if parts.len() == 0 {
        Seq::empty()
    } else {
        concat_texts(parts.drop_last()) + parts.last()
    }
}

// ---------------------------------------------------------------------
// CSV
// ---------------------------------------------------------------------

/// A CSV field needs quoting when it holds a comma, a quote or a newline.
pub open spec fn spec_csv_needs_escape(s: Seq<char>) -> bool {
    s.contains(',') || s.contains('"') || s.contains('\n')
}

/// Every quote doubled.
pub open spec fn spec_doubled_quotes(s: Seq<char>) -> Seq<char>
    decreases s.len(),
{
    if s.len() == 0 {
        Seq::empty()
    } else {
        spec_doubled_quotes(s.drop_last()) + (if s.last() == '"' {
            seq!['"', '"']
        } else {
            seq![s.last()]
        })
    }
}

/// A CSV field: quoted with internal quotes doubled when necessary, verbatim
/// otherwise.
pub open spec fn spec_csv_escaped(s: Seq<char>) -> Seq<char> {
    if spec_csv_needs_escape(s) {
        seq!['"'] + spec_doubled_quotes(s) + seq!['"']
    } else {
        s
    }
}

/// Escapes one CSV field.
pub fn csv_escape(value: &str) -> (r: String)
    ensures
        r@ == spec_csv_escaped(value@),
{
    let needs = str_contains_char(value, ',') || str_contains_char(value, '"')
        || str_contains_char(value, '\n');
    if !needs {
        return value.to_owned();
    }
    let len = value.unicode_len();
    let mut s = String::new();
    push_char(&mut s, '"');
    let mut i: usize = 0;
    proof {
        assert(value@.take(0) =~= Seq::<char>::empty());
        assert(spec_doubled_quotes(value@.take(0)) =~= Seq::<char>::empty());
        assert(s@ =~= seq!['"'] + spec_doubled_quotes(value@.take(0)));
    }
    while i < len
        invariant
            i <= len,
            len == value@.len(),
            s@ == seq!['"'] + spec_doubled_quotes(value@.take(i as int)),
        decreases len - i,
    {
        let c = value.get_char(i);
        proof {
            assert(value@.take(i + 1).drop_last() =~= value@.take(i as int));
            assert(value@.take(i + 1).last() == value@[i as int]);
        }
        if c == '"' {
            push_char(&mut s, '"');
            push_char(&mut s, '"');
        } else {
            push_char(&mut s, c);
        }
        proof {
            assert(s@ =~= seq!['"'] + spec_doubled_quotes(value@.take(i + 1)));
        }
        i = i + 1;
    }
    push_char(&mut s, '"');
    proof {
        assert(value@.take(len as int) =~= value@);
        assert(s@ =~= seq!['"'] + spec_doubled_quotes(value@) + seq!['"']);
    }
    s
}

/// Decimal text of an optional count; empty when absent.
pub open spec fn spec_opt_dec(o: Option<u64>) -> Seq<char> {
    match o {
        Option::Some(n) => dec_digits(n as int),
        Option::None => Seq::empty(),
    }
}

/// Escaped text of an optional field; empty when absent.
pub open spec fn spec_opt_csv(o: Option<Seq<char>>) -> Seq<char> {
    match o {
        Option::Some(s) => spec_csv_escaped(s),
        Option::None => Seq::empty(),
    }
}

/// `true` or `false`.
pub open spec fn spec_bool_text(b: bool) -> Seq<char> {
    if b {
        "true"@
    } else {
        "false"@
    }
}

/// An optional status symbol; empty when absent.
pub open spec fn spec_opt_char(o: Option<char>) -> Seq<char> {
    match o {
        Option::Some(c) => seq![c],
        Option::None => Seq::empty(),
    }
}

/// One CSV record: the fixed column order with quoting where needed, ending
/// in a newline.
pub open spec fn spec_csv_line(e: EntryV) -> Seq<char> {
    spec_csv_escaped(e.name) + ","@ + spec_csv_escaped(e.path) + ","@ + dec_digits(e.depth) + ","@
        + spec_kind_label(e.kind) + ","@ + spec_opt_dec(e.size) + ","@ + spec_opt_csv(e.mtime)
        + ","@ + spec_opt_csv(e.perm) + ","@ + spec_opt_csv(e.symlink_target) + ","@
        + spec_bool_text(e.loop_detected) + ","@ + spec_opt_csv(e.error) + ","@ + spec_opt_char(
        e.git_status,
    ) + "\n"@
}

fn append_opt_csv(out: &mut String, o: &Option<String>)
    ensures
        final(out)@ == old(out)@ + spec_opt_csv(crate::meta::opt_view(*o)),
{
    match o {
        Option::Some(s) => {
            let e = csv_escape(s.as_str());
            out.append(e.as_str());
        },
        Option::None => {
            proof {
                assert(out@ + Seq::<char>::empty() =~= out@);
            }
        },
    }
}

/// Serializes one entry as a CSV record.
pub fn write_csv_entry(entry: &Entry) -> (r: String)
    ensures
        r@ == spec_csv_line(entry@),
{
    let mut s = csv_escape(entry.name.as_str());
    s.append(",");
    let p = csv_escape(entry.path.as_str());
    s.append(p.as_str());
    s.append(",");
    let d = u64_to_dec(entry.depth as u64);
    s.append(d.as_str());
    s.append(",");
    s.append(entry_kind_label(entry.kind));
    s.append(",");
    match entry.size {
        Option::Some(n) => {
            let t = u64_to_dec(n);
            s.append(t.as_str());
        },
        Option::None => {},
    }
    s.append(",");
    append_opt_csv(&mut s, &entry.mtime);
    s.append(",");
    append_opt_csv(&mut s, &entry.perm);
    s.append(",");
    append_opt_csv(&mut s, &entry.symlink_target);
    s.append(",");
    if entry.loop_detected {
        s.append("true");
    } else {
        s.append("false");
    }
    s.append(",");
    append_opt_csv(&mut s, &entry.error);
    s.append(",");
    match entry.git_status {
        Option::Some(c) => {
            push_char(&mut s, c);
            proof {
                assert(spec_opt_char(entry@.git_status) =~= seq![c]);
            }
        },
        Option::None => {},
    }
    s.append("\n");
    proof {
        assert(s@ =~= spec_csv_line(entry@));
    }
    s
}

/// The CSV header row.
pub open spec fn spec_csv_header() -> Seq<char> {
    "name,path,depth,kind,size,mtime,perm,symlink_target,loop_detected,error,git_status\n"@
}

/// The CSV records of a stream, one per entry, in emission order.
pub open spec fn spec_csv_records(entries: Seq<EntryV>) -> Seq<Seq<char>> {
    entries.map_values(|e: EntryV| spec_csv_line(e))
}

/// Renders the stream as CSV: the header, then one record per emitted entry.
#[verifier::rlimit(100)]
pub fn run_tree_csv(items: &Vec<WalkItem>) -> (r: String)
    ensures
        r@ == spec_csv_header() + concat_texts(spec_csv_records(items_entries(items_view(items@)))),
{
    let mut s = String::from_str(
        "name,path,depth,kind,size,mtime,perm,symlink_target,loop_detected,error,git_status\n",
    );
    let ghost entries = items_entries(items_view(items@));
    let mut i: usize = 0;
    proof {
        assert(spec_csv_records(entries.take(0)) =~= Seq::<Seq<char>>::empty());
        assert(s@ =~= spec_csv_header() + concat_texts(spec_csv_records(entries.take(0))));
    }
    while i < items.len()
        invariant
            i <= items@.len(),
            entries == items_entries(items_view(items@)),
            entries.len() == items@.len(),
            s@ == spec_csv_header() + concat_texts(spec_csv_records(entries.take(i as int))),
        decreases items@.len() - i,
    {
        let line = write_csv_entry(&items[i].entry);
        s.append(line.as_str());
        proof {
            assert(entries[i as int] == items@[i as int]@.entry);
            assert(spec_csv_records(entries.take(i + 1)).drop_last() =~= spec_csv_records(
                entries.take(i as int),
            ));
            assert(spec_csv_records(entries.take(i + 1)).last() == spec_csv_line(
                entries[i as int],
            ));
            assert(s@ =~= spec_csv_header() + concat_texts(spec_csv_records(entries.take(i + 1))));
        }
        i = i + 1;
    }
    proof {
        assert(entries.take(entries.len() as int) =~= entries);
    }
    s
}

// ---------------------------------------------------------------------
// JSON
// ---------------------------------------------------------------------

/// Hexadecimal digit character.
pub open spec fn spec_hex_char(d: int) -> char {
    if d < 10 {
        crate::text::digit_char(d)
    } else if d == 10 {
        'a'
    } else if d == 11 {
        'b'
    } else if d == 12 {
        'c'
    } else if d == 13 {
        'd'
    } else if d == 14 {
        'e'
    } else {
        'f'
    }
}

/// The JSON escape of one character: quotes, backslashes and the common
/// control characters get short escapes, other control characters a
/// `\u00XX` escape, everything else stands as itself.
pub open spec fn spec_json_escape_char(c: char) -> Seq<char> {
    if c == '"' {
        seq!['\\', '"']
    } else if c == '\\' {
        seq!['\\', '\\']
    } else if c == '\n' {
        seq!['\\', 'n']
    } else if c == '\r' {
        seq!['\\', 'r']
    } else if c == '\t' {
        seq!['\\', 't']
    } else if (c as u32) < 32 {
        seq!['\\', 'u', '0', '0', spec_hex_char((c as u32) as int / 16), spec_hex_char(
            (c as u32) as int % 16,
        )]
    } else {
        seq![c]
    }
}

/// JSON escaping of a whole string body.
pub open spec fn spec_json_escaped(s: Seq<char>) -> Seq<char>
    decreases s.len(),
{
    if s.len() == 0 {
        Seq::empty()
    } else {
        spec_json_escaped(s.drop_last()) + spec_json_escape_char(s.last())
    }
}

/// A JSON string literal: the escaped body in quotes.
pub open spec fn spec_json_str(s: Seq<char>) -> Seq<char> {
    seq!['"'] + spec_json_escaped(s) + seq!['"']
}

fn hex_char(d: u32) -> (c: char)
    requires
        d < 16,
    ensures
        c == spec_hex_char(d as int),
{
    if d < 10 {
        crate::text::digit_char_exec(d as u64)
    } else if d == 10 {
        'a'
    } else if d == 11 {
        'b'
    } else if d == 12 {
        'c'
    } else if d == 13 {
        'd'
    } else if d == 14 {
        'e'
    } else {
        'f'
    }
}

/// Appends the JSON string literal for `v` to `out`.
pub fn append_json_str_pub(out: &mut String, v: &str)
    ensures
        final(out)@ == old(out)@ + spec_json_str(v@),
{
    push_char(out, '"');
    let len = v.unicode_len();
    let mut i: usize = 0;
    let ghost base = old(out)@;
    proof {
        assert(spec_json_escaped(v@.take(0)) =~= Seq::<char>::empty());
        assert(out@ =~= base + seq!['"'] + spec_json_escaped(v@.take(0)));
    }
    while i < len
        invariant
            i <= len,
            len == v@.len(),
            out@ == base + seq!['"'] + spec_json_escaped(v@.take(i as int)),
        decreases len - i,
    {
        let c = v.get_char(i);
        proof {
            assert(v@.take(i + 1).drop_last() =~= v@.take(i as int));
            assert(v@.take(i + 1).last() == v@[i as int]);
        }
        if c == '"' {
            push_char(out, '\\');
            push_char(out, '"');
        } else if c == '\\' {
            push_char(out, '\\');
            push_char(out, '\\');
        } else if c == '\n' {
            push_char(out, '\\');
            push_char(out, 'n');
        } else if c == '\r' {
            push_char(out, '\\');
            push_char(out, 'r');
        } else if c == '\t' {
            push_char(out, '\\');
            push_char(out, 't');
        } else if (c as u32) < 32 {
            push_char(out, '\\');
            push_char(out, 'u');
            push_char(out, '0');
            push_char(out, '0');
            push_char(out, hex_char((c as u32) / 16));
            push_char(out, hex_char((c as u32) % 16));
        } else {
            push_char(out, c);
        }
        proof {
            assert(out@ =~= base + seq!['"'] + spec_json_escaped(v@.take(i + 1)));
        }
        i = i + 1;
    }
    push_char(out, '"');
    proof {
        assert(v@.take(len as int) =~= v@);
        assert(out@ =~= base + spec_json_str(v@));
    }
}

/// The fixed head of an entry's JSON object: name, path, depth, kind.
pub open spec fn spec_json_entry_head(e: EntryV) -> Seq<char> {
    "{\"name\":"@ + spec_json_str(e.name) + ",\"path\":"@ + spec_json_str(e.path)
        + ",\"depth\":"@ + dec_digits(e.depth) + ",\"kind\":"@ + spec_json_str(
        spec_kind_label(e.kind),
    )
}

/// The optional size field text.
pub open spec fn spec_json_size(e: EntryV) -> Seq<char> {
    match e.size {
        Option::Some(n) => ",\"size\":"@ + dec_digits(n as int),
        Option::None => Seq::<char>::empty(),
    }
}

/// The optional mtime field text.
pub open spec fn spec_json_mtime(e: EntryV) -> Seq<char> {
    match e.mtime {
        Option::Some(t) => ",\"mtime\":"@ + spec_json_str(t),
        Option::None => Seq::<char>::empty(),
    }
}

/// The optional permission field text.
pub open spec fn spec_json_perm(e: EntryV) -> Seq<char> {
    match e.perm {
        Option::Some(p) => ",\"perm\":"@ + spec_json_str(p),
        Option::None => Seq::<char>::empty(),
    }
}

/// The optional symlink-target field text.
pub open spec fn spec_json_target(e: EntryV) -> Seq<char> {
    match e.symlink_target {
        Option::Some(t) => ",\"symlink_target\":"@ + spec_json_str(t),
        Option::None => Seq::<char>::empty(),
    }
}

/// The optional numeric and string fields, omitted when absent.
pub open spec fn spec_json_entry_opts(e: EntryV) -> Seq<char> {
    spec_json_size(e) + spec_json_mtime(e) + spec_json_perm(e) + spec_json_target(e)
}

/// The tail: the loop flag, then error and status when present.
pub open spec fn spec_json_entry_tail(e: EntryV) -> Seq<char> {
    ",\"loop_detected\":"@ + spec_bool_text(e.loop_detected) + (match e.error {
        Option::Some(t) => ",\"error\":"@ + spec_json_str(t),
        Option::None => Seq::<char>::empty(),
    }) + (match e.git_status {
        Option::Some(c) => ",\"git_status\":"@ + spec_json_str(seq![c]),
        Option::None => Seq::<char>::empty(),
    }) + "}"@
}

/// One entry as a JSON object: the fixed key order, optional fields omitted
/// when absent.
pub open spec fn spec_json_entry(e: EntryV) -> Seq<char> {
    spec_json_entry_head(e) + spec_json_entry_opts(e) + spec_json_entry_tail(e)
}

#[verifier::rlimit(100)]
fn append_json_opts(s: &mut String, entry: &Entry)
    ensures
        final(s)@ == old(s)@ + spec_json_entry_opts(entry@),
{
    let ghost base = old(s)@;
    match entry.size {
        Option::Some(n) => {
            s.append(",\"size\":");
            let t = u64_to_dec(n);
            s.append(t.as_str());
        },
        Option::None => {},
    }
    proof {
        assert(s@ =~= base + spec_json_size(entry@));
    }
    let ghost b1 = s@;
    match &entry.mtime {
        Option::Some(t) => {
            s.append(",\"mtime\":");
            append_json_str_pub(s, t.as_str());
        },
        Option::None => {},
    }
    proof {
        assert(s@ =~= b1 + spec_json_mtime(entry@));
    }
    let ghost b2 = s@;
    match &entry.perm {
        Option::Some(p) => {
            s.append(",\"perm\":");
            append_json_str_pub(s, p.as_str());
        },
        Option::None => {},
    }
    proof {
        assert(s@ =~= b2 + spec_json_perm(entry@));
    }
    let ghost b3 = s@;
    match &entry.symlink_target {
        Option::Some(t) => {
            s.append(",\"symlink_target\":");
            append_json_str_pub(s, t.as_str());
        },
        Option::None => {},
    }
    proof {
        assert(s@ =~= b3 + spec_json_target(entry@));
        assert(s@ =~= base + spec_json_entry_opts(entry@));
    }
}

fn append_json_tail(s: &mut String, entry: &Entry)
    ensures
        final(s)@ == old(s)@ + spec_json_entry_tail(entry@),
{
    let ghost base = old(s)@;
    s.append(",\"loop_detected\":");
    if entry.loop_detected {
        s.append("true");
    } else {
        s.append("false");
    }
    match &entry.error {
        Option::Some(t) => {
            s.append(",\"error\":");
            append_json_str_pub(s, t.as_str());
        },
        Option::None => {},
    }
    match entry.git_status {
        Option::Some(c) => {
            s.append(",\"git_status\":");
            let mut cs = String::new();
            push_char(&mut cs, c);
            append_json_str_pub(s, cs.as_str());
            proof {
                assert(cs@ =~= seq![c]);
            }
        },
        Option::None => {},
    }
    s.append("}");
    proof {
        assert(s@ =~= base + spec_json_entry_tail(entry@));
    }
}

/// Serializes one entry as a JSON object.
pub fn entry_to_json(entry: &Entry) -> (r: String)
    ensures
        r@ == spec_json_entry(entry@),
{
    let mut s = String::from_str("{\"name\":");
    append_json_str_pub(&mut s, entry.name.as_str());
    s.append(",\"path\":");
    append_json_str_pub(&mut s, entry.path.as_str());
    s.append(",\"depth\":");
    let d = u64_to_dec(entry.depth as u64);
    s.append(d.as_str());
    s.append(",\"kind\":");
    append_json_str_pub(&mut s, entry_kind_label(entry.kind));
    proof {
        assert(s@ =~= spec_json_entry_head(entry@));
    }
    append_json_opts(&mut s, entry);
    append_json_tail(&mut s, entry);
    proof {
        assert(s@ =~= spec_json_entry(entry@));
    }
    s
}

/// The line-delimited records of a stream, one per entry.
pub open spec fn spec_ndjson_records(entries: Seq<EntryV>) -> Seq<Seq<char>> {
    entries.map_values(|e: EntryV| spec_json_entry(e) + "\n"@)
}

/// Renders the stream as line-delimited JSON: one independent object per
/// line, in emission order, with no other framing.
#[verifier::rlimit(100)]
pub fn run_tree_ndjson(items: &Vec<WalkItem>) -> (r: String)
    ensures
        r@ == concat_texts(spec_ndjson_records(items_entries(items_view(items@)))),
{
    let mut s = String::new();
    let ghost entries = items_entries(items_view(items@));
    let mut i: usize = 0;
    proof {
        assert(spec_ndjson_records(entries.take(0)) =~= Seq::<Seq<char>>::empty());
        assert(s@ =~= concat_texts(spec_ndjson_records(entries.take(0))));
    }
    while i < items.len()
        invariant
            i <= items@.len(),
            entries == items_entries(items_view(items@)),
            entries.len() == items@.len(),
            s@ == concat_texts(spec_ndjson_records(entries.take(i as int))),
        decreases items@.len() - i,
    {
        let line = entry_to_json(&items[i].entry);
        s.append(line.as_str());
        s.append("\n");
        proof {
            assert(entries[i as int] == items@[i as int]@.entry);
            assert(spec_ndjson_records(entries.take(i + 1)).drop_last() =~= spec_ndjson_records(
                entries.take(i as int),
            ));
            assert(spec_ndjson_records(entries.take(i + 1)).last() == spec_json_entry(
                entries[i as int],
            ) + "\n"@);
            assert(s@ =~= concat_texts(spec_ndjson_records(entries.take(i + 1))));
        }
        i = i + 1;
    }
    proof {
        assert(entries.take(entries.len() as int) =~= entries);
    }
    s
}

/// The body of the JSON-array format: each record on its own line, separated
/// by commas.
pub open spec fn spec_json_body(entries: Seq<EntryV>) -> Seq<char>
    decreases entries.len(),
{
    if entries.len() == 0 {
        Seq::empty()
    } else {
        spec_json_body(entries.drop_last()) + (if entries.len() > 1 {
            ","@
        } else {
            Seq::<char>::empty()
        }) + "\n"@ + spec_json_entry(entries.last())
    }
}

/// Renders the stream as one JSON array of the same records, in emission
/// order.
#[verifier::rlimit(100)]
pub fn run_tree_json(items: &Vec<WalkItem>) -> (r: String)
    ensures
        r@ == "["@ + spec_json_body(items_entries(items_view(items@))) + "\n]\n"@,
{
    let mut s = String::from_str("[");
    let ghost entries = items_entries(items_view(items@));
    let mut i: usize = 0;
    proof {
        assert(spec_json_body(entries.take(0)) =~= Seq::<char>::empty());
        assert(s@ =~= "["@ + spec_json_body(entries.take(0)));
    }
    while i < items.len()
        invariant
            i <= items@.len(),
            entries == items_entries(items_view(items@)),
            entries.len() == items@.len(),
            s@ == "["@ + spec_json_body(entries.take(i as int)),
        decreases items@.len() - i,
    {
        if i > 0 {
            s.append(",");
        }
        s.append("\n");
        let line = entry_to_json(&items[i].entry);
        s.append(line.as_str());
        proof {
            assert(entries[i as int] == items@[i as int]@.entry);
            assert(entries.take(i + 1).drop_last() =~= entries.take(i as int));
            assert(entries.take(i + 1).last() == entries[i as int]);
            assert(s@ =~= "["@ + spec_json_body(entries.take(i + 1)));
        }
        i = i + 1;
    }
    proof {
        assert(entries.take(entries.len() as int) =~= entries);
    }
    s.append("\n]\n");
    proof {
        assert(s@ =~= "["@ + spec_json_body(entries) + "\n]\n"@);
    }
    s
}

/// `part` occurs verbatim inside `line`.
pub open spec fn spec_embeds(line: Seq<char>, part: Seq<char>) -> bool {
    exists|k: int|
        0 <= k && k + part.len() <= line.len() && #[trigger] line.subrange(k, k + part.len())
            == part
}

proof fn lemma_embeds_mid(a: Seq<char>, part: Seq<char>, b: Seq<char>, line: Seq<char>)
    requires
        line == a + part + b,
    ensures
        spec_embeds(line, part),
{
    let k = a.len() as int;
    assert(line.subrange(k, k + part.len()) =~= part);
}

/// A CSV record carries its entry's escaped path verbatim.
#[verifier::rlimit(100)]
proof fn lemma_csv_embeds_path(e: EntryV)
    ensures
        spec_embeds(spec_csv_line(e), spec_csv_escaped(e.path)),
{
    let a = spec_csv_escaped(e.name) + ","@;
    let b = ","@ + dec_digits(e.depth) + ","@ + spec_kind_label(e.kind) + ","@ + spec_opt_dec(
        e.size,
    ) + ","@ + spec_opt_csv(e.mtime) + ","@ + spec_opt_csv(e.perm) + ","@ + spec_opt_csv(
        e.symlink_target,
    ) + ","@ + spec_bool_text(e.loop_detected) + ","@ + spec_opt_csv(e.error) + ","@
        + spec_opt_char(e.git_status) + "\n"@;
    assert(spec_csv_line(e) =~= a + spec_csv_escaped(e.path) + b);
    lemma_embeds_mid(a, spec_csv_escaped(e.path), b, spec_csv_line(e));
}

/// A JSON record carries its entry's path as a JSON string verbatim.
#[verifier::rlimit(100)]
proof fn lemma_json_embeds_path(e: EntryV)
    ensures
        spec_embeds(spec_json_entry(e), spec_json_str(e.path)),
        spec_embeds(spec_json_entry(e) + "\n"@, spec_json_str(e.path)),
{
    let a = "{\"name\":"@ + spec_json_str(e.name) + ",\"path\":"@;
    let b = ",\"depth\":"@ + dec_digits(e.depth) + ",\"kind\":"@ + spec_json_str(
        spec_kind_label(e.kind),
    ) + spec_json_entry_opts(e) + spec_json_entry_tail(e);
    assert(spec_json_entry(e) =~= a + spec_json_str(e.path) + b);
    lemma_embeds_mid(a, spec_json_str(e.path), b, spec_json_entry(e));
    assert(spec_json_entry(e) + "\n"@ =~= a + spec_json_str(e.path) + (b + "\n"@));
    lemma_embeds_mid(a, spec_json_str(e.path), b + "\n"@, spec_json_entry(e) + "\n"@);
}

/// The record-oriented formats enumerate the same entries: for one traversal
/// stream, CSV, NDJSON and the JSON array each render exactly one record per
/// emitted entry, in the same order; the record at each position is a
/// function of that entry alone and carries the entry's (escaped) path
/// verbatim. The format differs, the enumerated content does not.
pub proof fn lemma_formats_enumerate_same_entries(items: Seq<WalkItemV>)
    ensures
        spec_csv_records(items_entries(items)).len() == items.len(),
        spec_ndjson_records(items_entries(items)).len() == items.len(),
        forall|i: int|
            0 <= i < items.len() ==> #[trigger] spec_csv_records(items_entries(items))[i]
                == spec_csv_line(items[i].entry),
        forall|i: int|
            0 <= i < items.len() ==> #[trigger] spec_ndjson_records(items_entries(items))[i]
                == spec_json_entry(items[i].entry) + "\n"@,
        forall|i: int|
            0 <= i < items.len() ==> spec_embeds(
                #[trigger] spec_csv_records(items_entries(items))[i],
                spec_csv_escaped(items[i].entry.path),
            ),
        forall|i: int|
            0 <= i < items.len() ==> spec_embeds(
                #[trigger] spec_ndjson_records(items_entries(items))[i],
                spec_json_str(items[i].entry.path),
            ),
        forall|i: int|
            0 <= i < items.len() ==> spec_embeds(
                spec_json_entry(#[trigger] items[i].entry),
                spec_json_str(items[i].entry.path),
            ),
{
    assert forall|i: int| 0 <= i < items.len() implies spec_embeds(
        #[trigger] spec_csv_records(items_entries(items))[i],
        spec_csv_escaped(items[i].entry.path),
    ) by {
        lemma_csv_embeds_path(items[i].entry);
    }
    assert forall|i: int| 0 <= i < items.len() implies spec_embeds(
        #[trigger] spec_ndjson_records(items_entries(items))[i],
        spec_json_str(items[i].entry.path),
    ) by {
        lemma_json_embeds_path(items[i].entry);
    }
    assert forall|i: int| 0 <= i < items.len() implies spec_embeds(
        spec_json_entry(#[trigger] items[i].entry),
        spec_json_str(items[i].entry.path),
    ) by {
        lemma_json_embeds_path(items[i].entry);
    }
}

// ---------------------------------------------------------------------
// Plain text
// ---------------------------------------------------------------------

/// The lead of a plain-mode line: prefix, connector, optional status symbol
/// and size.
pub open spec fn spec_plain_lead(prefix: Seq<char>, e: EntryV, is_last: bool) -> Seq<char> {
    prefix + (if is_last {
        "└── "@
    } else {
        "├── "@
    }) + (match e.git_status {
        Option::Some(c) => "["@ + seq![c] + "] "@,
        Option::None => Seq::<char>::empty(),
    }) + (match e.size {
        Option::Some(n) => "["@ + dec_digits(n as int) + "] "@,
        Option::None => Seq::<char>::empty(),
    })
}

/// The trail of a plain-mode line: symlink target, cycle marker, error.
pub open spec fn spec_plain_trail(e: EntryV) -> Seq<char> {
    (match e.symlink_target {
        Option::Some(t) => " -> "@ + t,
        Option::None => Seq::<char>::empty(),
    }) + (if e.loop_detected {
        "  [skipped: circular link]"@
    } else {
        Seq::<char>::empty()
    }) + (match e.error {
        Option::Some(t) => "  [error: "@ + t + "]"@,
        Option::None => Seq::<char>::empty(),
    }) + "\n"@
}

/// One plain-mode line: connector-prefixed, with optional status symbol,
/// size, symlink target, cycle marker and error.
pub open spec fn spec_plain_line(prefix: Seq<char>, e: EntryV, is_last: bool) -> Seq<char> {
    spec_plain_lead(prefix, e, is_last) + e.name + spec_plain_trail(e)
}

/// Writes one plain-mode line for an entry.
#[verifier::rlimit(100)]
pub fn write_plain_entry(prefix: &str, entry: &Entry, is_last: bool) -> (r: String)
    ensures
        r@ == spec_plain_line(prefix@, entry@, is_last),
{
    let mut s = prefix.to_owned();
    if is_last {
        s.append("└── ");
    } else {
        s.append("├── ");
    }
    match entry.git_status {
        Option::Some(c) => {
            s.append("[");
            push_char(&mut s, c);
            s.append("] ");
        },
        Option::None => {},
    }
    match entry.size {
        Option::Some(n) => {
            s.append("[");
            let t = u64_to_dec(n);
            s.append(t.as_str());
            s.append("] ");
        },
        Option::None => {},
    }
    proof {
        assert(s@ =~= spec_plain_lead(prefix@, entry@, is_last));
    }
    s.append(entry.name.as_str());
    let ghost mid = s@;
    match &entry.symlink_target {
        Option::Some(t) => {
            s.append(" -> ");
            s.append(t.as_str());
        },
        Option::None => {},
    }
    if entry.loop_detected {
        s.append("  [skipped: circular link]");
    }
    match &entry.error {
        Option::Some(t) => {
            s.append("  [error: ");
            s.append(t.as_str());
            s.append("]");
        },
        Option::None => {},
    }
    s.append("\n");
    proof {
        assert(s@ =~= mid + spec_plain_trail(entry@));
        assert(s@ =~= spec_plain_line(prefix@, entry@, is_last));
    }
    s
}

/// Mathematical view of a [`PlainPending`].
pub ghost struct PlainPendingV {
    pub entry: EntryV,
    pub prefix: Seq<char>,
    pub is_last: bool,
    pub total_size: u64,
}

/// A directory line whose size is still being accumulated: plain mode cannot
/// print a directory until its subtree is drained.
pub struct PlainPending {
    pub entry: Entry,
    pub prefix: String,
    pub is_last: bool,
    pub total_size: u64,
}

impl View for PlainPending {
    type V = PlainPendingV;

    open spec fn view(&self) -> PlainPendingV {
        PlainPendingV {
            entry: self.entry@,
            prefix: self.prefix@,
            is_last: self.is_last,
            total_size: self.total_size,
        }
    }
}

/// Saturating addition on byte counts.
pub open spec fn spec_sat_add(a: u64, b: u64) -> u64 {
    if a + b > u64::MAX {
        u64::MAX
    } else {
        (a + b) as u64
    }
}

impl PlainPending {
    /// Opens a pending directory line: its size field is cleared (it will be
    /// the rollup) and the accumulator starts at zero.
    pub fn new(entry: Entry, prefix: String, is_last: bool) -> (r: PlainPending)
        ensures
            r@.entry == (EntryV { size: Option::<u64>::None, ..entry@ }),
            r@.prefix == prefix@,
            r@.is_last == is_last,
            r@.total_size == 0,
    {
        let mut entry = entry;
        entry.size = Option::None;
        PlainPending { entry, prefix, is_last, total_size: 0 }
    }

    /// Adds one visible child's size to the accumulator (saturating).
    pub fn record_child_size(&mut self, child_size: u64)
        ensures
            final(self)@ == (PlainPendingV {
                total_size: spec_sat_add(old(self)@.total_size, child_size),
                ..old(self)@
            }),
    {
        if self.total_size > u64::MAX - child_size {
            self.total_size = u64::MAX;
        } else {
            self.total_size = self.total_size + child_size;
        }
    }
}

/// Views of a pending stack.
pub open spec fn pends_view(s: Seq<PlainPending>) -> Seq<PlainPendingV> {
    s.map_values(|p: PlainPending| p@)
}

/// Recording a child size into the innermost pending directory, if any.
pub open spec fn spec_record_child(pending: Seq<PlainPendingV>, size: Option<u64>) -> Seq<
    PlainPendingV,
> {
    match size {
        Option::None => pending,
        Option::Some(n) => {
            if pending.len() == 0 {
                pending
            } else {
                pending.update(
                    pending.len() - 1,
                    PlainPendingV {
                        total_size: spec_sat_add(pending.last().total_size, n),
                        ..pending.last()
                    },
                )
            }
        },
    }
}

/// Emitting one finished entry: its line is appended and its size recorded
/// into the enclosing pending directory.
pub open spec fn spec_finalize_entry(
    text: Seq<char>,
    pending: Seq<PlainPendingV>,
    prefix: Seq<char>,
    e: EntryV,
    is_last: bool,
) -> (Seq<char>, Seq<PlainPendingV>) {
    (text + spec_plain_line(prefix, e, is_last), spec_record_child(pending, e.size))
}

/// Closing the innermost pending directory: its line is written with the
/// accumulated size of its visible children.
pub open spec fn spec_close_top(text: Seq<char>, pending: Seq<PlainPendingV>) -> (
    Seq<char>,
    Seq<PlainPendingV>,
) {
    let p = pending.last();
    spec_finalize_entry(
        text,
        pending.drop_last(),
        p.prefix,
        EntryV { size: Option::Some(p.total_size), ..p.entry },
        p.is_last,
    )
}

/// Closing every pending directory at or below `depth` (those whose subtrees
/// are complete once an item at `depth` arrives).
pub open spec fn spec_close_until(
    text: Seq<char>,
    pending: Seq<PlainPendingV>,
    depth: int,
) -> (Seq<char>, Seq<PlainPendingV>)
    decreases pending.len(),
{
    if pending.len() > 0 && pending.last().entry.depth >= depth {
        let (t2, p2) = spec_close_top(text, pending);
        spec_close_until(t2, p2, depth)
    } else {
        (text, pending)
    }
}

/// Plain-mode rendering of the stream from position `i` on, with `text`
/// already written and `pending` directories open.
pub open spec fn spec_plain_fold(
    items: Seq<WalkItemV>,
    i: int,
    text: Seq<char>,
    pending: Seq<PlainPendingV>,
) -> Seq<char>
    decreases items.len() - i,
{
    if i < 0 || i >= items.len() {
        spec_close_until(text, pending, 0).0
    } else {
        let it = items[i];
        let (t2, p2) = spec_close_until(text, pending, it.entry.depth);
        if it.descend {
            spec_plain_fold(
                items,
                i + 1,
                t2,
                p2.push(
                    PlainPendingV {
                        entry: EntryV { size: Option::<u64>::None, ..it.entry },
                        prefix: it.prefix,
                        is_last: it.is_last,
                        total_size: 0,
                    },
                ),
            )
        } else {
            let (t3, p3) = spec_finalize_entry(t2, p2, it.prefix, it.entry, it.is_last);
            spec_plain_fold(items, i + 1, t3, p3)
        }
    }
}

/// The whole plain output: the root path on its own line, then the stream
/// with post-order directory size rollup.
pub open spec fn spec_plain_output(root: Seq<char>, items: Seq<WalkItemV>) -> Seq<char> {
    spec_plain_fold(items, 1, root + "\n"@, Seq::empty())
}

/// Emits one finished entry: records its size into the innermost pending
/// directory and appends its line.
pub fn finalize_plain_entry(
    out: &mut String,
    entry: Entry,
    prefix: &str,
    is_last: bool,
    pending_dirs: &mut Vec<PlainPending>,
)
    ensures
        ({
            let (t2, p2) = spec_finalize_entry(
                old(out)@,
                pends_view(old(pending_dirs)@),
                prefix@,
                entry@,
                is_last,
            );
            final(out)@ == t2 && pends_view(final(pending_dirs)@) == p2
        }),
{
    let ghost pend0 = pends_view(pending_dirs@);
    match entry.size {
        Option::Some(size) => {
            if pending_dirs.len() > 0 {
                let li = pending_dirs.len() - 1;
                let mut parent = pending_dirs.pop().unwrap();
                parent.record_child_size(size);
                pending_dirs.push(parent);
                proof {
                    assert(pends_view(pending_dirs@) =~= spec_record_child(
                        pend0,
                        entry@.size,
                    ));
                }
            }
        },
        Option::None => {},
    }
    let line = write_plain_entry(prefix, &entry, is_last);
    out.append(line.as_str());
    proof {
        assert(pends_view(pending_dirs@) =~= spec_record_child(pend0, entry@.size));
    }
}

/// Closes one pending directory: its line carries the accumulated size of
/// its visible children — the sum, not the on-disk size.
pub fn finalize_pending_dir(
    out: &mut String,
    pending: PlainPending,
    pending_dirs: &mut Vec<PlainPending>,
)
    ensures
        ({
            let (t2, p2) = spec_finalize_entry(
                old(out)@,
                pends_view(old(pending_dirs)@),
                pending@.prefix,
                EntryV { size: Option::Some(pending@.total_size), ..pending@.entry },
                pending@.is_last,
            );
            final(out)@ == t2 && pends_view(final(pending_dirs)@) == p2
        }),
{
    let PlainPending { mut entry, prefix, is_last, total_size } = pending;
    entry.size = Option::Some(total_size);
    finalize_plain_entry(out, entry, prefix.as_str(), is_last, pending_dirs);
}

/// Closes every pending directory whose subtree is complete at `depth`.
fn close_pending_until(out: &mut String, pending_dirs: &mut Vec<PlainPending>, depth: usize)
    ensures
        ({
            let (t2, p2) = spec_close_until(old(out)@, pends_view(old(pending_dirs)@), depth as int);
            final(out)@ == t2 && pends_view(final(pending_dirs)@) == p2
        }),
    decreases old(pending_dirs)@.len(),
{
    if pending_dirs.len() > 0 {
        let top_depth = pending_dirs[pending_dirs.len() - 1].entry.depth;
        if top_depth >= depth {
            let ghost pend0 = pends_view(pending_dirs@);
            let top = pending_dirs.pop().unwrap();
            proof {
                assert(pends_view(pending_dirs@) =~= pend0.drop_last());
                assert(top@ == pend0.last());
            }
            finalize_pending_dir(out, top, pending_dirs);
            proof {
                assert(pends_view(pending_dirs@).len() == pend0.len() - 1);
                assert(pending_dirs@.len() < old(pending_dirs)@.len());
            }
            close_pending_until(out, pending_dirs, depth);
        }
    }
}

/// Renders the stream as an ASCII tree: one connector-prefixed line per
/// entry, with each opened directory's line deferred until its subtree is
/// drained so its displayed size is the rollup of its visible children.
pub fn run_tree_plain(root: &str, items: &Vec<WalkItem>) -> (r: String)
    ensures
        r@ == spec_plain_output(root@, items_view(items@)),
    decreases items@.len(),
{
    let mut out = root.to_owned();
    out.append("\n");
    let mut pending_dirs: Vec<PlainPending> = Vec::new();
    let ghost itemsv = items_view(items@);
    let ghost target = spec_plain_output(root@, itemsv);
    let mut i: usize = 1;
    proof {
        assert(pends_view(pending_dirs@) =~= Seq::<PlainPendingV>::empty());
        assert(target == spec_plain_fold(itemsv, 1, out@, pends_view(pending_dirs@)));
    }
    while i < items.len()
        invariant
            1 <= i,
            itemsv == items_view(items@),
            itemsv.len() == items@.len(),
            target == spec_plain_fold(itemsv, i as int, out@, pends_view(pending_dirs@)),
        decreases items@.len() - i,
    {
        let item = &items[i];
        let ghost it = itemsv[i as int];
        let ghost out0 = out@;
        let ghost pend0 = pends_view(pending_dirs@);
        proof {
            assert(it == items@[i as int]@);
            assert(it.entry.depth == item.entry.depth as int);
        }
        close_pending_until(&mut out, &mut pending_dirs, item.entry.depth);
        let ghost st = spec_close_until(out0, pend0, it.entry.depth);
        proof {
            assert(out@ == st.0);
            assert(pends_view(pending_dirs@) == st.1);
        }
        if item.descend {
            let pe = PlainPending::new(item.entry.clone(), item.prefix.clone(), item.is_last);
            let ghost pmid = pends_view(pending_dirs@);
            pending_dirs.push(pe);
            proof {
                assert(pe@ == (PlainPendingV {
                    entry: EntryV { size: Option::<u64>::None, ..it.entry },
                    prefix: it.prefix,
                    is_last: it.is_last,
                    total_size: 0u64,
                }));
                assert(pends_view(pending_dirs@) =~= pmid.push(pe@));
                assert(target == spec_plain_fold(itemsv, i + 1, out@, pends_view(pending_dirs@)));
            }
        } else {
            finalize_plain_entry(
                &mut out,
                item.entry.clone(),
                item.prefix.as_str(),
                item.is_last,
                &mut pending_dirs,
            );
            proof {
                let fin = spec_finalize_entry(st.0, st.1, it.prefix, it.entry, it.is_last);
                assert(out@ == fin.0);
                assert(pends_view(pending_dirs@) == fin.1);
                assert(target == spec_plain_fold(itemsv, i + 1, out@, pends_view(pending_dirs@)));
            }
        }
        i = i + 1;
    }
    let ghost out0 = out@;
    let ghost pend0 = pends_view(pending_dirs@);
    close_pending_until(&mut out, &mut pending_dirs, 0);
    proof {
        assert(out@ == spec_close_until(out0, pend0, 0).0);
        assert(target == spec_plain_fold(itemsv, i as int, out0, pend0));
        assert(out@ == target);
    }
    out
}

// ---------------------------------------------------------------------
// YAML-like tree
// ---------------------------------------------------------------------

/// A materialized subtree: the one renderer that is not stream-shaped, since
/// nested `children:` blocks and directory rollups need the whole subtree
/// first.
pub struct YamlNode {
    pub entry: Entry,
    pub children: Vec<YamlNode>,
}

/// Saturating sum of the sizes the first `i` children report.
pub open spec fn spec_children_size_sum(children: Seq<YamlNode>, i: int) -> u64
    decreases i,
{
    if i <= 0 {
        0u64
    } else {
        match children[i - 1].entry@.size {
            Option::Some(n) => spec_sat_add(spec_children_size_sum(children, i - 1), n),
            Option::None => spec_children_size_sum(children, i - 1),
        }
    }
}

/// Whether any of the first `i` children reports a size.
pub open spec fn spec_children_have_size(children: Seq<YamlNode>, i: int) -> bool
    decreases i,
{
    if i <= 0 {
        false
    } else {
        children[i - 1].entry@.size is Some || spec_children_have_size(children, i - 1)
    }
}

/// The rollup law for one node: a node with children reports as its size the
/// sum of the sizes its visible children report — not its on-disk size — and
/// no size at all when no child reports one.
pub open spec fn spec_node_rollup(node: &YamlNode) -> bool {
    node.children@.len() > 0 ==> node.entry@.size == (if spec_children_have_size(
        node.children@,
        node.children@.len() as int,
    ) {
        Option::Some(spec_children_size_sum(node.children@, node.children@.len() as int))
    } else {
        Option::<u64>::None
    })
}

/// The rollup law over a whole subtree.
pub open spec fn spec_tree_rollup(node: &YamlNode) -> bool
    decreases node,
{
    spec_node_rollup(node) && spec_forest_rollup(node.children@, 0)
}

/// The rollup law over the nodes of a forest from position `i` on.
pub open spec fn spec_forest_rollup(children: Seq<YamlNode>, i: int) -> bool
    decreases children, children.len() - i,
{
    i >= children.len() || (0 <= i && spec_tree_rollup(&children[i]) && spec_forest_rollup(
        children,
        i + 1,
    ))
}

/// Mathematical view of a materialized subtree.
pub ghost struct YamlNodeV {
    pub entry: EntryV,
    pub children: Seq<YamlNodeV>,
}

/// View of one materialized node.
pub open spec fn yaml_node_view(node: YamlNode) -> YamlNodeV
    decreases node, 1int,
{
    YamlNodeV { entry: node.entry@, children: yaml_forest_view(node.children@, 0) }
}

/// Views of a node sequence from position `i` on.
pub open spec fn yaml_forest_view(nodes: Seq<YamlNode>, i: int) -> Seq<YamlNodeV>
    decreases nodes, nodes.len() - i, 2int,
{
    if i < 0 || i >= nodes.len() {
        Seq::empty()
    } else {
        seq![yaml_node_view(nodes[i])] + yaml_forest_view(nodes, i + 1)
    }
}

proof fn lemma_yaml_forest_view(nodes: Seq<YamlNode>, i: int)
    requires
        0 <= i <= nodes.len(),
    ensures
        yaml_forest_view(nodes, i).len() == nodes.len() - i,
        forall|k: int|
            0 <= k < nodes.len() - i ==> #[trigger] yaml_forest_view(nodes, i)[k]
                == yaml_node_view(nodes[i + k]),
    decreases nodes.len() - i,
{
    if i < nodes.len() {
        lemma_yaml_forest_view(nodes, i + 1);
        assert forall|k: int|
            0 <= k < nodes.len() - i implies #[trigger] yaml_forest_view(nodes, i)[k]
            == yaml_node_view(nodes[i + k]) by {
            if k > 0 {
                assert(yaml_forest_view(nodes, i)[k] == yaml_forest_view(nodes, i + 1)[k - 1]);
            }
        }
    }
}

proof fn lemma_yaml_forest_view_push(nodes: Seq<YamlNode>, n: YamlNode)
    ensures
        yaml_forest_view(nodes.push(n), 0) == yaml_forest_view(nodes, 0).push(yaml_node_view(n)),
{
    lemma_yaml_forest_view(nodes, 0);
    lemma_yaml_forest_view(nodes.push(n), 0);
    assert forall|k: int|
        0 <= k < nodes.len() + 1 implies #[trigger] yaml_forest_view(nodes.push(n), 0)[k]
        == yaml_forest_view(nodes, 0).push(yaml_node_view(n))[k] by {
        if k < nodes.len() {
            assert(nodes.push(n)[k] == nodes[k]);
        } else {
            assert(nodes.push(n)[k] == n);
        }
    }
    assert(yaml_forest_view(nodes.push(n), 0) =~= yaml_forest_view(nodes, 0).push(
        yaml_node_view(n),
    ));
}

/// Saturating sum of the sizes the first `i` children report, over views.
pub open spec fn spec_sizes_sum_v(children: Seq<YamlNodeV>, i: int) -> u64
    decreases i,
{
    if i <= 0 {
        0u64
    } else {
        match children[i - 1].entry.size {
            Option::Some(n) => spec_sat_add(spec_sizes_sum_v(children, i - 1), n),
            Option::None => spec_sizes_sum_v(children, i - 1),
        }
    }
}

/// Whether any of the first `i` children reports a size, over views.
pub open spec fn spec_have_size_v(children: Seq<YamlNodeV>, i: int) -> bool
    decreases i,
{
    if i <= 0 {
        false
    } else {
        children[i - 1].entry.size is Some || spec_have_size_v(children, i - 1)
    }
}

/// The rolled-up size of a finished child list: the saturating sum of the
/// sizes its children report, or nothing when no child reports one.
pub open spec fn spec_rollup_v(children: Seq<YamlNodeV>) -> Option<u64> {
    if spec_have_size_v(children, children.len() as int) {
        Option::Some(spec_sizes_sum_v(children, children.len() as int))
    } else {
        Option::None
    }
}

proof fn lemma_rollup_view(children: Seq<YamlNode>, i: int)
    requires
        0 <= i <= children.len(),
    ensures
        spec_children_size_sum(children, i) == spec_sizes_sum_v(yaml_forest_view(children, 0), i),
        spec_children_have_size(children, i) == spec_have_size_v(yaml_forest_view(children, 0), i),
    decreases i,
{
    lemma_yaml_forest_view(children, 0);
    if i > 0 {
        lemma_rollup_view(children, i - 1);
        assert(yaml_forest_view(children, 0)[i - 1] == yaml_node_view(children[i - 1]));
    }
}

/// The child depth the builder descends with (capped at the machine limit, as
/// the traversal depth itself is).
pub open spec fn spec_bump_depth(depth: int) -> int {
    if depth < usize::MAX as int {
        depth + 1
    } else {
        depth
    }
}

/// The node the builder materializes from the stream item at `i` (and its
/// subtree when the engine descended into it), with the position after the
/// consumed range: a descended-into item takes as children the following
/// stream segment one level deeper and reports the rollup of their sizes; any
/// other item is a leaf carrying its entry unchanged.
pub open spec fn spec_build_node(items: Seq<WalkItemV>, i: int, depth: int) -> (YamlNodeV, int)
    decreases items.len() - i, 0int,
{
    if 0 <= i < items.len() && items[i].descend {
        let (children, next) = spec_build_children(items, i + 1, spec_bump_depth(depth));
        (
            YamlNodeV {
                entry: EntryV { size: spec_rollup_v(children), ..items[i].entry },
                children,
            },
            next,
        )
    } else {
        (YamlNodeV { entry: items[i].entry, children: Seq::empty() }, i + 1)
    }
}

/// The sibling list the builder materializes at `depth` from the stream,
/// starting at `start`: one node per item until the stream ends or leaves the
/// depth, each node consuming its own subtree segment.
pub open spec fn spec_build_children(items: Seq<WalkItemV>, start: int, depth: int) -> (
    Seq<YamlNodeV>,
    int,
)
    decreases items.len() - start, 1int,
{
    if start < 0 || start >= items.len() || items[start].entry.depth != depth {
        (Seq::empty(), start)
    } else {
        let (node, next) = spec_build_node(items, start, depth);
        if next <= start || next > items.len() {
            (seq![node], next)
        } else {
            let (rest, fin) = spec_build_children(items, next, depth);
            (seq![node] + rest, fin)
        }
    }
}

/// Computes the rollup size for a finished child list.
fn rollup_size(children: &Vec<YamlNode>) -> (r: Option<u64>)
    ensures
        r == (if spec_children_have_size(children@, children@.len() as int) {
            Option::Some(spec_children_size_sum(children@, children@.len() as int))
        } else {
            Option::<u64>::None
        }),
{
    let mut total: u64 = 0;
    let mut has: bool = false;
    let mut i: usize = 0;
    while i < children.len()
        invariant
            i <= children@.len(),
            total == spec_children_size_sum(children@, i as int),
            has == spec_children_have_size(children@, i as int),
        decreases children@.len() - i,
    {
        match children[i].entry.size {
            Option::Some(n) => {
                if total > u64::MAX - n {
                    total = u64::MAX;
                } else {
                    total = total + n;
                }
                has = true;
            },
            Option::None => {},
        }
        i = i + 1;
    }
    if has {
        Option::Some(total)
    } else {
        Option::None
    }
}

/// Builds the sibling list at `depth` from the stream, starting at `start`;
/// returns the nodes and the position after the consumed range: exactly what
/// [`spec_build_children`] materializes there. Every built subtree satisfies
/// the rollup law.
pub fn build_yaml_children(items: &Vec<WalkItem>, start: usize, depth: usize) -> (r: (
    Vec<YamlNode>,
    usize,
))
    requires
        1 <= start <= items@.len(),
    ensures
        start <= r.1 <= items@.len(),
        spec_forest_rollup(r.0@, 0),
        forall|j: int| 0 <= j < r.0@.len() ==> spec_tree_rollup(&(#[trigger] r.0@[j])),
        yaml_forest_view(r.0@, 0) == spec_build_children(
            items_view(items@),
            start as int,
            depth as int,
        ).0,
        r.1 as int == spec_build_children(items_view(items@), start as int, depth as int).1,
    decreases items@.len() - start, 1int,
{
    let ghost itemsv = items_view(items@);
    let mut nodes: Vec<YamlNode> = Vec::new();
    let mut i: usize = start;
    proof {
        assert(yaml_forest_view(nodes@, 0) =~= Seq::<YamlNodeV>::empty());
    }
    while i < items.len() && items[i].entry.depth == depth
        invariant
            1 <= start <= i,
            i <= items@.len(),
            items@.len() - i <= items@.len() - start,
            itemsv == items_view(items@),
            forall|j: int| 0 <= j < nodes@.len() ==> spec_tree_rollup(&(#[trigger] nodes@[j])),
            spec_build_children(itemsv, start as int, depth as int).0 == yaml_forest_view(
                nodes@,
                0,
            ) + spec_build_children(itemsv, i as int, depth as int).0,
            spec_build_children(itemsv, start as int, depth as int).1 == spec_build_children(
                itemsv,
                i as int,
                depth as int,
            ).1,
        decreases items@.len() - i,
    {
        let ghost nodes_pre = nodes@;
        let ghost i_pre = i as int;
        let (node, next) = build_yaml_node(items, i, depth);
        nodes.push(node);
        i = next;
        proof {
            assert(itemsv[i_pre].entry.depth == depth as int);
            lemma_yaml_forest_view_push(nodes_pre, node);
            assert(spec_build_children(itemsv, i_pre, depth as int).0 =~= seq![
                yaml_node_view(node),
            ] + spec_build_children(itemsv, i as int, depth as int).0);
            assert(spec_build_children(itemsv, start as int, depth as int).0 =~= yaml_forest_view(
                nodes@,
                0,
            ) + spec_build_children(itemsv, i as int, depth as int).0);
        }
    }
    proof {
        lemma_forest_rollup(nodes@, 0);
        if i < items.len() {
            assert(itemsv[i as int].entry.depth != depth as int);
        }
        assert(spec_build_children(itemsv, i as int, depth as int).0 =~= Seq::<
            YamlNodeV,
        >::empty());
        assert(spec_build_children(itemsv, start as int, depth as int).0 =~= yaml_forest_view(
            nodes@,
            0,
        ));
    }
    (nodes, i)
}

proof fn lemma_forest_rollup(children: Seq<YamlNode>, i: int)
    requires
        0 <= i <= children.len(),
        forall|j: int| 0 <= j < children.len() ==> spec_tree_rollup(&(#[trigger] children[j])),
    ensures
        spec_forest_rollup(children, i),
    decreases children.len() - i,
{
    if i < children.len() {
        lemma_forest_rollup(children, i + 1);
    }
}

/// Builds one node from the stream item at `i` (and its subtree when the
/// engine descended into it), applying the size rollup: exactly the node
/// [`spec_build_node`] materializes there.
pub fn build_yaml_node(items: &Vec<WalkItem>, i: usize, depth: usize) -> (r: (YamlNode, usize))
    requires
        i >= 1,
        i < items@.len(),
    ensures
        i < r.1 <= items@.len(),
        spec_tree_rollup(&r.0),
        yaml_node_view(r.0) == spec_build_node(items_view(items@), i as int, depth as int).0,
        r.1 as int == spec_build_node(items_view(items@), i as int, depth as int).1,
    decreases items@.len() - i, 0int,
{
    let ghost itemsv = items_view(items@);
    let n = items.len();
    let item = &items[i];
    let mut entry = item.entry.clone();
    proof {
        assert(itemsv[i as int] == items@[i as int]@);
    }
    if item.descend {
        entry.size = Option::None;
        let next_depth = if depth < usize::MAX {
            depth + 1
        } else {
            depth
        };
        let (children, next) = build_yaml_children(items, i + 1, next_depth);
        match rollup_size(&children) {
            Option::Some(total) => {
                entry.size = Option::Some(total);
            },
            Option::None => {},
        }
        let node = YamlNode { entry, children };
        proof {
            assert(spec_node_rollup(&node));
            lemma_forest_rollup(node.children@, 0);
            lemma_rollup_view(node.children@, node.children@.len() as int);
            lemma_yaml_forest_view(node.children@, 0);
            assert(next_depth as int == spec_bump_depth(depth as int));
            assert(node.entry@.size == spec_rollup_v(yaml_forest_view(node.children@, 0)));
            assert(yaml_node_view(node) == spec_build_node(itemsv, i as int, depth as int).0);
        }
        (node, next)
    } else {
        let node = YamlNode { entry, children: Vec::new() };
        proof {
            assert(spec_forest_rollup(node.children@, 0));
            assert(yaml_forest_view(node.children@, 0) =~= Seq::<YamlNodeV>::empty());
            assert(yaml_node_view(node) == spec_build_node(itemsv, i as int, depth as int).0);
        }
        (node, i + 1)
    }
}

/// The indent text for a level.
pub open spec fn spec_indent(indent: int) -> Seq<char> {
    Seq::new(indent as nat, |j: int| ' ')
}

/// The fixed scalar field lines: path, depth, kind.
pub open spec fn spec_yaml_fields_head(e: EntryV, indent: int) -> Seq<char> {
    let ind = spec_indent(indent);
    ind + "path: "@ + spec_json_str(e.path) + "\n"@ + ind + "depth: "@ + dec_digits(e.depth)
        + "\n"@ + ind + "kind: "@ + spec_kind_label(e.kind) + "\n"@
}

/// The optional size field line.
pub open spec fn spec_yaml_size(e: EntryV, indent: int) -> Seq<char> {
    match e.size {
        Option::Some(n) => spec_indent(indent) + "size: "@ + dec_digits(n as int) + "\n"@,
        Option::None => Seq::<char>::empty(),
    }
}

/// The optional mtime field line.
pub open spec fn spec_yaml_mtime(e: EntryV, indent: int) -> Seq<char> {
    match e.mtime {
        Option::Some(t) => spec_indent(indent) + "mtime: "@ + spec_json_str(t) + "\n"@,
        Option::None => Seq::<char>::empty(),
    }
}

/// The optional permission field line.
pub open spec fn spec_yaml_perm(e: EntryV, indent: int) -> Seq<char> {
    match e.perm {
        Option::Some(p) => spec_indent(indent) + "perm: "@ + spec_json_str(p) + "\n"@,
        Option::None => Seq::<char>::empty(),
    }
}

/// The optional symlink-target field line.
pub open spec fn spec_yaml_target(e: EntryV, indent: int) -> Seq<char> {
    match e.symlink_target {
        Option::Some(t) => spec_indent(indent) + "symlink_target: "@ + spec_json_str(t) + "\n"@,
        Option::None => Seq::<char>::empty(),
    }
}

/// The optional size and mtime field lines.
pub open spec fn spec_yaml_fields_mid(e: EntryV, indent: int) -> Seq<char> {
    spec_yaml_size(e, indent) + spec_yaml_mtime(e, indent) + spec_yaml_perm(e, indent)
        + spec_yaml_target(e, indent)
}

/// The loop flag and the optional error and status field lines.
pub open spec fn spec_yaml_fields_tail(e: EntryV, indent: int) -> Seq<char> {
    let ind = spec_indent(indent);
    ind + "loop_detected: "@ + spec_bool_text(e.loop_detected) + "\n"@ + (match e.error {
        Option::Some(t) => ind + "error: "@ + spec_json_str(t) + "\n"@,
        Option::None => Seq::<char>::empty(),
    }) + (match e.git_status {
        Option::Some(c) => ind + "git_status: "@ + seq![c] + "\n"@,
        Option::None => Seq::<char>::empty(),
    })
}

/// The scalar field lines of one node at the given indent.
pub open spec fn spec_yaml_fields(e: EntryV, indent: int) -> Seq<char> {
    spec_yaml_fields_head(e, indent) + spec_yaml_fields_mid(e, indent) + spec_yaml_fields_tail(
        e,
        indent,
    )
}

fn append_yaml_head(out: &mut String, ind: &String, entry: &Entry, indent: usize)
    requires
        ind@ == spec_indent(indent as int),
    ensures
        final(out)@ == old(out)@ + spec_yaml_fields_head(entry@, indent as int),
{
    let ghost base = old(out)@;
    out.append(ind.as_str());
    out.append("path: ");
    append_json_str_pub(out, entry.path.as_str());
    out.append("\n");
    out.append(ind.as_str());
    out.append("depth: ");
    let d = u64_to_dec(entry.depth as u64);
    out.append(d.as_str());
    out.append("\n");
    out.append(ind.as_str());
    out.append("kind: ");
    out.append(entry_kind_label(entry.kind));
    out.append("\n");
    proof {
        assert(out@ =~= base + spec_yaml_fields_head(entry@, indent as int));
    }
}

#[verifier::rlimit(100)]
fn append_yaml_mid1(out: &mut String, ind: &String, entry: &Entry, indent: usize)
    requires
        ind@ == spec_indent(indent as int),
    ensures
        final(out)@ == old(out)@ + spec_yaml_size(entry@, indent as int) + spec_yaml_mtime(
            entry@,
            indent as int,
        ),
{
    let ghost b1 = old(out)@;
    match entry.size {
        Option::Some(n) => {
            out.append(ind.as_str());
            out.append("size: ");
            let t = u64_to_dec(n);
            out.append(t.as_str());
            out.append("\n");
        },
        Option::None => {},
    }
    proof {
        assert(out@ =~= b1 + spec_yaml_size(entry@, indent as int));
    }
    let ghost b2 = out@;
    match &entry.mtime {
        Option::Some(t) => {
            out.append(ind.as_str());
            out.append("mtime: ");
            append_json_str_pub(out, t.as_str());
            out.append("\n");
        },
        Option::None => {},
    }
    proof {
        assert(out@ =~= b2 + spec_yaml_mtime(entry@, indent as int));
    }
}

fn append_yaml_mid2(out: &mut String, ind: &String, entry: &Entry, indent: usize)
    requires
        ind@ == spec_indent(indent as int),
    ensures
        final(out)@ == old(out)@ + spec_yaml_perm(entry@, indent as int) + spec_yaml_target(
            entry@,
            indent as int,
        ),
{
    let ghost b3 = old(out)@;
    match &entry.perm {
        Option::Some(p) => {
            out.append(ind.as_str());
            out.append("perm: ");
            append_json_str_pub(out, p.as_str());
            out.append("\n");
        },
        Option::None => {},
    }
    proof {
        assert(out@ =~= b3 + spec_yaml_perm(entry@, indent as int));
    }
    let ghost b4 = out@;
    match &entry.symlink_target {
        Option::Some(t) => {
            out.append(ind.as_str());
            out.append("symlink_target: ");
            append_json_str_pub(out, t.as_str());
            out.append("\n");
        },
        Option::None => {},
    }
    proof {
        assert(out@ =~= b4 + spec_yaml_target(entry@, indent as int));
    }
}

fn append_yaml_mid(out: &mut String, ind: &String, entry: &Entry, indent: usize)
    requires
        ind@ == spec_indent(indent as int),
    ensures
        final(out)@ == old(out)@ + spec_yaml_fields_mid(entry@, indent as int),
{
    let ghost base = old(out)@;
    append_yaml_mid1(out, ind, entry, indent);
    append_yaml_mid2(out, ind, entry, indent);
    proof {
        assert(out@ =~= base + spec_yaml_fields_mid(entry@, indent as int));
    }
}

fn append_yaml_tail(out: &mut String, ind: &String, entry: &Entry, indent: usize)
    requires
        ind@ == spec_indent(indent as int),
    ensures
        final(out)@ == old(out)@ + spec_yaml_fields_tail(entry@, indent as int),
{
    let ghost base = old(out)@;
    out.append(ind.as_str());
    out.append("loop_detected: ");
    if entry.loop_detected {
        out.append("true");
    } else {
        out.append("false");
    }
    out.append("\n");
    proof {
        assert(out@ =~= base + (spec_indent(indent as int) + "loop_detected: "@ + spec_bool_text(
            entry@.loop_detected,
        ) + "\n"@));
    }
    let ghost b1 = out@;
    match &entry.error {
        Option::Some(t) => {
            out.append(ind.as_str());
            out.append("error: ");
            append_json_str_pub(out, t.as_str());
            out.append("\n");
        },
        Option::None => {},
    }
    proof {
        assert(out@ =~= b1 + (match entry@.error {
            Option::Some(t) => spec_indent(indent as int) + "error: "@ + spec_json_str(t) + "\n"@,
            Option::None => Seq::<char>::empty(),
        }));
    }
    let ghost b2 = out@;
    match entry.git_status {
        Option::Some(c) => {
            out.append(ind.as_str());
            out.append("git_status: ");
            push_char(out, c);
            out.append("\n");
        },
        Option::None => {},
    }
    proof {
        assert(out@ =~= b2 + (match entry@.git_status {
            Option::Some(c) => spec_indent(indent as int) + "git_status: "@ + seq![c] + "\n"@,
            Option::None => Seq::<char>::empty(),
        }));
        assert(out@ =~= base + spec_yaml_fields_tail(entry@, indent as int));
    }
}

/// Appends the scalar field lines of one node (everything but the name line
/// and the children block).
pub fn write_yaml_fields(out: &mut String, indent: usize, entry: &Entry)
    ensures
        final(out)@ == old(out)@ + spec_yaml_fields(entry@, indent as int),
{
    let ind = crate::text::spaces(indent);
    proof {
        assert(ind@ =~= spec_indent(indent as int));
    }
    let ghost base = old(out)@;
    append_yaml_head(out, &ind, entry, indent);
    append_yaml_mid(out, &ind, entry, indent);
    append_yaml_tail(out, &ind, entry, indent);
    proof {
        assert(out@ =~= base + spec_yaml_fields(entry@, indent as int));
    }
}

/// The next nesting level's indent, capped so that indentation arithmetic
/// cannot overflow on absurdly deep trees.
pub open spec fn spec_bump_indent(indent: int) -> int {
    if indent + 2 <= 65534 {
        indent + 2
    } else {
        indent
    }
}

/// The text of one node: its dash-prefixed name line, its scalar fields, and
/// a `children:` block when it has children.
pub open spec fn spec_yaml_node(node: &YamlNode, indent: int, with_dash: bool) -> Seq<char>
    decreases node, 1int,
{
    let ind = spec_indent(indent);
    let line_prefix = if with_dash {
        ind + "- "@
    } else {
        ind
    };
    let child_indent = if with_dash {
        spec_bump_indent(indent)
    } else {
        indent
    };
    let cind = spec_indent(child_indent);
    line_prefix + "name: "@ + spec_json_str(node.entry@.name) + "\n"@ + spec_yaml_fields(
        node.entry@,
        child_indent,
    ) + (if node.children@.len() > 0 {
        cind + "children:"@ + "\n"@ + spec_yaml_forest(node.children@, 0, spec_bump_indent(
            child_indent,
        ))
    } else {
        Seq::<char>::empty()
    })
}

/// The text of a forest from position `i` on, each node dash-prefixed.
pub open spec fn spec_yaml_forest(children: Seq<YamlNode>, i: int, indent: int) -> Seq<char>
    decreases children, children.len() - i, 2int,
{
    if i < 0 || i >= children.len() {
        Seq::empty()
    } else {
        spec_yaml_node(&children[i], indent, true) + spec_yaml_forest(children, i + 1, indent)
    }
}

fn bump_indent(indent: usize) -> (r: usize)
    ensures
        r as int == spec_bump_indent(indent as int),
{
    if indent <= 65532 {
        indent + 2
    } else {
        indent
    }
}

/// Writes one node and its subtree.
#[verifier::rlimit(100)]
pub fn write_yaml_node(out: &mut String, node: &YamlNode, indent: usize, with_dash: bool)
    ensures
        final(out)@ == old(out)@ + spec_yaml_node(node, indent as int, with_dash),
    decreases node,
{
    let ghost base = old(out)@;
    let ind = crate::text::spaces(indent);
    proof {
        assert(ind@ =~= spec_indent(indent as int));
    }
    out.append(ind.as_str());
    if with_dash {
        out.append("- ");
    }
    out.append("name: ");
    append_json_str_pub(out, node.entry.name.as_str());
    out.append("\n");
    let child_indent = if with_dash {
        bump_indent(indent)
    } else {
        indent
    };
    write_yaml_fields(out, child_indent, &node.entry);
    proof {
        assert(out@ =~= base + ((if with_dash {
            spec_indent(indent as int) + "- "@
        } else {
            spec_indent(indent as int)
        }) + "name: "@ + spec_json_str(node.entry@.name) + "\n"@ + spec_yaml_fields(
            node.entry@,
            child_indent as int,
        )));
    }
    let ghost after_fields = out@;
    if node.children.len() > 0 {
        let cind = crate::text::spaces(child_indent);
        proof {
            assert(cind@ =~= spec_indent(child_indent as int));
        }
        out.append(cind.as_str());
        out.append("children:");
        out.append("\n");
        let grand_indent = bump_indent(child_indent);
        let mut i: usize = 0;
        let ghost fbase = out@;
        proof {
            assert(out@ + spec_yaml_forest(node.children@, 0, grand_indent as int) == fbase
                + spec_yaml_forest(node.children@, 0, grand_indent as int));
        }
        while i < node.children.len()
            invariant
                i <= node.children@.len(),
                grand_indent as int == spec_bump_indent(child_indent as int),
                out@ + spec_yaml_forest(node.children@, i as int, grand_indent as int) == fbase
                    + spec_yaml_forest(node.children@, 0, grand_indent as int),
            decreases node.children@.len() - i,
        {
            write_yaml_node(out, &node.children[i], grand_indent, true);
            i = i + 1;
        }
        proof {
            assert(spec_yaml_forest(node.children@, node.children@.len() as int, grand_indent as int)
                =~= Seq::<char>::empty());
            assert(out@ + Seq::<char>::empty() =~= out@);
        }
    }
    proof {
        assert(out@ =~= base + spec_yaml_node(node, indent as int, with_dash));
    }
}

/// The text of one node view: its dash-prefixed name line, its scalar fields,
/// and a `children:` block when it has children (the ghost counterpart of
/// [`spec_yaml_node`], over node views).
pub open spec fn spec_yaml_node_v(node: YamlNodeV, indent: int, with_dash: bool) -> Seq<char>
    decreases node, 1int,
{
    let ind = spec_indent(indent);
    let line_prefix = if with_dash {
        ind + "- "@
    } else {
        ind
    };
    let child_indent = if with_dash {
        spec_bump_indent(indent)
    } else {
        indent
    };
    let cind = spec_indent(child_indent);
    line_prefix + "name: "@ + spec_json_str(node.entry.name) + "\n"@ + spec_yaml_fields(
        node.entry,
        child_indent,
    ) + (if node.children.len() > 0 {
        cind + "children:"@ + "\n"@ + spec_yaml_forest_v(node.children, 0, spec_bump_indent(
            child_indent,
        ))
    } else {
        Seq::<char>::empty()
    })
}

/// The text of a forest of node views from position `i` on, each node
/// dash-prefixed.
pub open spec fn spec_yaml_forest_v(children: Seq<YamlNodeV>, i: int, indent: int) -> Seq<char>
    decreases children, children.len() - i, 2int,
{
    if i < 0 || i >= children.len() {
        Seq::empty()
    } else {
        spec_yaml_node_v(children[i], indent, true) + spec_yaml_forest_v(children, i + 1, indent)
    }
}

proof fn lemma_yaml_text_view(node: YamlNode, indent: int, with_dash: bool)
    ensures
        spec_yaml_node(&node, indent, with_dash) == spec_yaml_node_v(
            yaml_node_view(node),
            indent,
            with_dash,
        ),
    decreases node, 1int,
{
    let child_indent = if with_dash {
        spec_bump_indent(indent)
    } else {
        indent
    };
    lemma_yaml_forest_view(node.children@, 0);
    lemma_yaml_forest_text_view(node.children@, 0, spec_bump_indent(child_indent));
}

proof fn lemma_yaml_forest_text_view(children: Seq<YamlNode>, i: int, indent: int)
    requires
        0 <= i,
    ensures
        spec_yaml_forest(children, i, indent) == spec_yaml_forest_v(
            yaml_forest_view(children, 0),
            i,
            indent,
        ),
    decreases children, children.len() - i, 2int,
{
    lemma_yaml_forest_view(children, 0);
    if i < children.len() {
        lemma_yaml_text_view(children[i], indent, true);
        lemma_yaml_forest_text_view(children, i + 1, indent);
        assert(yaml_forest_view(children, 0)[i] == yaml_node_view(children[i]));
    }
}

/// The document the YAML renderer materializes from a stream: the root item's
/// entry over the children [`spec_build_children`] gathers at the first
/// level, with the root's size replaced by their rollup when the root was
/// traversed.
pub open spec fn spec_yaml_doc_from(items: Seq<WalkItemV>, rollup_root: bool) -> YamlNodeV {
    let children = spec_build_children(items, 1, 1).0;
    YamlNodeV {
        entry: if rollup_root {
            EntryV { size: spec_rollup_v(children), ..items[0].entry }
        } else {
            items[0].entry
        },
        children,
    }
}

/// The document text of a tree of node views.
pub open spec fn spec_yaml_doc_text_v(doc: YamlNodeV) -> Seq<char> {
    spec_yaml_node_v(doc, 0, false)
}

/// Renders the stream as a nested YAML-like tree with directory size
/// rollups. `rollup_root` says whether the root was traversed (its size is
/// then the rollup of its visible children). The output is exactly the text
/// of the document [`spec_yaml_doc_from`] materializes from the stream.
pub fn run_tree_yaml(items: &Vec<WalkItem>, rollup_root: bool) -> (r: String)
    requires
        items@.len() >= 1,
    ensures
        r@ == spec_yaml_doc_text_v(spec_yaml_doc_from(items_view(items@), rollup_root)),
{
    let ghost itemsv = items_view(items@);
    let mut root_entry = items[0].entry.clone();
    let (children, _next) = build_yaml_children(items, 1, 1);
    if rollup_root {
        root_entry.size = rollup_size(&children);
    }
    let doc = YamlNode { entry: root_entry, children };
    proof {
        lemma_forest_rollup(doc.children@, 0);
        lemma_rollup_view(doc.children@, doc.children@.len() as int);
        lemma_yaml_forest_view(doc.children@, 0);
        assert(itemsv[0] == items@[0]@);
        assert(yaml_node_view(doc) == spec_yaml_doc_from(itemsv, rollup_root));
    }
    let mut out = String::new();
    write_yaml_node(&mut out, &doc, 0, false);
    proof {
        assert(out@ =~= spec_yaml_node(&doc, 0, false));
        lemma_yaml_text_view(doc, 0, false);
        assert(out@ == spec_yaml_doc_text_v(spec_yaml_doc_from(itemsv, rollup_root)));
    }
    out
}

// ---------------------------------------------------------------------
// HTML
// ---------------------------------------------------------------------

/// The flat entry list a stream carries.
pub fn collect_entries_flat(items: &Vec<WalkItem>) -> (r: Vec<Entry>)
    ensures
        r@.len() == items@.len(),
        forall|i: int| 0 <= i < items@.len() ==> (#[trigger] r@[i])@ == items@[i]@.entry,
{
    let mut out: Vec<Entry> = Vec::new();
    let mut i: usize = 0;
    while i < items.len()
        invariant
            i <= items@.len(),
            out@.len() == i,
            forall|j: int| 0 <= j < i ==> (#[trigger] out@[j])@ == items@[j]@.entry,
        decreases items@.len() - i,
    {
        out.push(items[i].entry.clone());
        i = i + 1;
    }
    out
}

/// The comma-separated body of a compact JSON array.
pub open spec fn spec_json_compact_body(entries: Seq<EntryV>) -> Seq<char>
    decreases entries.len(),
{
    if entries.len() == 0 {
        Seq::empty()
    } else {
        spec_json_compact_body(entries.drop_last()) + (if entries.len() > 1 {
            ","@
        } else {
            Seq::<char>::empty()
        }) + spec_json_entry(entries.last())
    }
}

/// Compact JSON array of the stream's entries (no inter-record whitespace).
pub open spec fn spec_json_array_compact(entries: Seq<EntryV>) -> Seq<char> {
    "["@ + spec_json_compact_body(entries) + "]"@
}

/// `</script` occurrences escaped so the embedded JSON cannot close its
/// surrounding script tag early.
pub open spec fn spec_escape_script(s: Seq<char>) -> Seq<char>
    decreases s.len(),
{
    if s.len() == 0 {
        Seq::empty()
    } else if crate::text::is_prefix_of("</script"@, s) && "</script"@.len() == 8 {
        "<\\/script"@ + spec_escape_script(s.skip(8))
    } else {
        seq![s[0]] + spec_escape_script(s.drop_first())
    }
}

/// Escapes embedded script-closing sequences in serialized data.
pub fn escape_script_data(data: &str) -> (r: String)
    ensures
        r@ == spec_escape_script(data@),
{
    let len = data.unicode_len();
    let pat = "</script";
    let plen = pat.unicode_len();
    proof {
        reveal_strlit("</script");
        assert(plen == 8);
        assert(data@.skip(0) =~= data@);
    }
    let mut out = String::new();
    let mut i: usize = 0;
    while i < len
        invariant
            i <= len,
            len == data@.len(),
            pat@ == "</script"@,
            plen == pat@.len(),
            plen == 8,
            spec_escape_script(data@) == out@ + spec_escape_script(data@.skip(i as int)),
        decreases len - i,
    {
        let ghost rem = data@.skip(i as int);
        proof {
            assert(rem[0] == data@[i as int]);
        }
        let mut matches_pat = plen <= len - i;
        let mut k: usize = 0;
        while k < plen && matches_pat
            invariant
                k <= plen,
                i < len,
                len == data@.len(),
                pat@ == "</script"@,
                plen == pat@.len(),
                matches_pat ==> plen <= len - i,
                matches_pat == (plen <= len - i && forall|j: int|
                    0 <= j < k ==> data@[i + j] == pat@[j]),
            decreases plen - k,
        {
            if data.get_char(i + k) != pat.get_char(k) {
                matches_pat = false;
            }
            k = k + 1;
        }
        if matches_pat {
            proof {
                assert(forall|j: int| 0 <= j < plen ==> rem[j] == data@[i + j]);
                assert(forall|j: int| 0 <= j < plen ==> rem[j] == "</script"@[j]);
                assert(crate::text::is_prefix_of("</script"@, rem));
                assert(rem.skip(plen as int) =~= data@.skip(i + plen));
                assert(spec_escape_script(rem) == "<\\/script"@ + spec_escape_script(
                    data@.skip(i + plen),
                ));
            }
            out.append("<\\/script");
            i = i + plen;
        } else {
            proof {
                if crate::text::is_prefix_of("</script"@, rem) {
                    assert(forall|j: int|
                        0 <= j < plen ==> rem[j] == "</script"@[j] && rem[j] == data@[i + j]);
                    assert(k == plen || !matches_pat);
                    assert(forall|j: int| 0 <= j < plen ==> data@[i + j] == pat@[j]);
                    assert(false);
                }
                assert(rem.drop_first() =~= data@.skip(i + 1));
                assert(spec_escape_script(rem) == seq![rem[0]] + spec_escape_script(
                    data@.skip(i + 1),
                ));
            }
            push_char(&mut out, data.get_char(i));
            i = i + 1;
        }
    }
    proof {
        assert(data@.skip(len as int) =~= Seq::<char>::empty());
        assert(spec_escape_script(Seq::<char>::empty()) =~= Seq::<char>::empty());
        assert(out@ + Seq::<char>::empty() =~= out@);
    }
    out
}

/// Everything the HTML page holds before the embedded data.
pub open spec fn spec_html_prefix() -> Seq<char> {
    "<!DOCTYPE html>\n"@ + "<html lang=\"en\">\n"@ + "<head>\n"@ + "  <meta charset=\"utf-8\">\n"@
        + "  <title>printree</title>\n"@
        + "  <style>body { font-family: monospace; white-space: pre; margin: 2rem; }</style>\n"@
        + "</head>\n"@ + "<body>\n"@ + "<script type=\"application/json\" id=\"tree-data\">"@
}

/// Everything the HTML page holds after the embedded data.
pub open spec fn spec_html_suffix() -> Seq<char> {
    "</script>\n"@ + "<pre id=\"tree-output\"></pre>\n"@
        + "<script>const data=JSON.parse(document.getElementById('tree-data').textContent);\n"@
        + "const lines=data.map(e=>`${'    '.repeat(e.depth)}${e.name}`);\n"@
        + "document.getElementById('tree-output').textContent=lines.join('\\n');</script>\n"@
        + "</body>\n"@ + "</html>\n"@
}

/// The whole HTML page: a static page embedding the entry list as JSON, with
/// script-closing sequences escaped.
pub open spec fn spec_html_output(entries: Seq<EntryV>) -> Seq<char> {
    spec_html_prefix() + spec_escape_script(spec_json_array_compact(entries)) + spec_html_suffix()
}

/// Renders the stream as a self-contained HTML page.
#[verifier::rlimit(100)]
pub fn run_tree_html(items: &Vec<WalkItem>) -> (r: String)
    ensures
        r@ == spec_html_output(items_entries(items_view(items@))),
{
    let ghost entries = items_entries(items_view(items@));
    let mut json = String::from_str("[");
    let mut i: usize = 0;
    proof {
        assert(spec_json_compact_body(entries.take(0)) =~= Seq::<char>::empty());
        assert(json@ =~= "["@ + spec_json_compact_body(entries.take(0)));
    }
    while i < items.len()
        invariant
            i <= items@.len(),
            entries == items_entries(items_view(items@)),
            entries.len() == items@.len(),
            json@ == "["@ + spec_json_compact_body(entries.take(i as int)),
        decreases items@.len() - i,
    {
        if i > 0 {
            json.append(",");
        }
        let line = entry_to_json(&items[i].entry);
        json.append(line.as_str());
        proof {
            assert(entries[i as int] == items@[i as int]@.entry);
            assert(entries.take(i + 1).drop_last() =~= entries.take(i as int));
            assert(entries.take(i + 1).last() == entries[i as int]);
            assert(json@ =~= "["@ + spec_json_compact_body(entries.take(i + 1)));
        }
        i = i + 1;
    }
    json.append("]");
    proof {
        assert(entries.take(entries.len() as int) =~= entries);
        assert(json@ =~= spec_json_array_compact(entries));
    }
    let escaped = escape_script_data(json.as_str());
    let mut out = String::from_str("<!DOCTYPE html>\n");
    out.append("<html lang=\"en\">\n");
    out.append("<head>\n");
    out.append("  <meta charset=\"utf-8\">\n");
    out.append("  <title>printree</title>\n");
    out.append("  <style>body { font-family: monospace; white-space: pre; margin: 2rem; }</style>\n");
    out.append("</head>\n");
    out.append("<body>\n");
    out.append("<script type=\"application/json\" id=\"tree-data\">");
    proof {
        assert(out@ =~= spec_html_prefix());
    }
    out.append(escaped.as_str());
    out.append("</script>\n");
    out.append("<pre id=\"tree-output\"></pre>\n");
    out.append("<script>const data=JSON.parse(document.getElementById('tree-data').textContent);\n");
    out.append("const lines=data.map(e=>`${'    '.repeat(e.depth)}${e.name}`);\n");
    out.append("document.getElementById('tree-output').textContent=lines.join('\\n');</script>\n");
    out.append("</body>\n");
    out.append("</html>\n");
    proof {
        assert(out@ =~= spec_html_output(entries));
    }
    out
}

/// Whether the configured include or exclude patterns compile.
pub open spec fn spec_patterns_ok(
    raw: Seq<Seq<char>>,
    syntax: crate::config::PatternSyntax,
    allow_partial: bool,
) -> bool {
    raw.len() == 0 || (if syntax == crate::config::PatternSyntax::Glob {
        crate::pattern::glob_set_ok(
            crate::pattern::spec_effective_patterns(raw, syntax, allow_partial),
        )
    } else {
        crate::pattern::regex_ok(raw)
    })
}

/// Whether a configuration is valid: the pattern lists compile, every filter
/// specification parses, and the worker count is at least one.
pub open spec fn spec_config_ok(cli: &Cli, now: u64) -> bool {
    &&& spec_patterns_ok(
        crate::meta::strings_view(cli.includes@),
        cli.pattern_syntax,
        true,
    )
    &&& spec_patterns_ok(crate::meta::strings_view(cli.excludes@), cli.pattern_syntax, false)
    &&& (match cli.filter_regex {
        Option::Some(p) => crate::pattern::regex_ok(seq![p@]),
        Option::None => true,
    })
    &&& (match cli.filter_size {
        Option::Some(sp) => crate::filters::spec_parse_size(sp@) is Some,
        Option::None => true,
    })
    &&& (match cli.filter_mtime {
        Option::Some(sp) => crate::filters::spec_parse_mtime(sp@, now) is Some,
        Option::None => true,
    })
    &&& (match cli.filter_perm {
        Option::Some(sp) => crate::filters::spec_parse_perm(sp@) is Some,
        Option::None => true,
    })
    &&& cli.jobs >= 1
}

/// Runs one tree inspection over the modelled subtree: compiles the filter
/// pipeline from configuration, validates the worker count, walks the model,
/// and renders the stream in the configured format.
///
/// Fails exactly when the configuration is invalid; per-entry and
/// per-directory problems never fail the run (they surface in the entries
/// themselves).
/// Whether a depth limit of one confines the run to the root itself.
pub open spec fn spec_depth_limited(cli: &Cli) -> bool {
    match cli.max_depth {
        Option::Some(d) => d == 1,
        Option::None => false,
    }
}

/// Marker naming one concrete run: the emitted stream, its frame logs, and
/// the compiled matchers and filters. It guides the existential in
/// [`run_tree`]'s contract.
pub open spec fn run_witness(
    items: Seq<WalkItemV>,
    logs: Seq<crate::engine::FrameLog>,
    inc: Option<crate::pattern::PatternList>,
    exc: Option<crate::pattern::PatternList>,
    filters: crate::filters::Filters,
) -> bool {
    true
}

/// What a successful run returns: the configured renderer's exact output for
/// some traversal stream that starts with the root item, never descends into
/// a loop-flagged entry, and decomposes into the opened directories' frames
/// (each built by the pipeline from the model's listing, each consumed in
/// order, every non-root item belonging to exactly one frame slot).
pub open spec fn spec_run_output(
    cli: &Cli,
    model: &crate::engine::FsModel,
    git: &crate::gitmap::GitTracker,
    now: u64,
    out: Seq<char>,
) -> bool {
    exists|items: Seq<WalkItemV>, logs: Seq<crate::engine::FrameLog>, inc: Option<
        crate::pattern::PatternList,
    >, exc: Option<crate::pattern::PatternList>, filters: crate::filters::Filters|
        #![trigger run_witness(items, logs, inc, exc, filters)]
        {
            &&& (match inc {
                Option::Some(pl) => cli.includes@.len() > 0 && pl.patterns()
                    == crate::pattern::spec_effective_patterns(
                    crate::meta::strings_view(cli.includes@),
                    cli.pattern_syntax,
                    true,
                ),
                Option::None => cli.includes@.len() == 0,
            })
            &&& (cli.includes@.len() == 0 ==> inc is None)
            &&& (match exc {
                Option::Some(pl) => cli.excludes@.len() > 0 && pl.patterns()
                    == crate::pattern::spec_effective_patterns(
                    crate::meta::strings_view(cli.excludes@),
                    cli.pattern_syntax,
                    false,
                ),
                Option::None => cli.excludes@.len() == 0,
            })
            &&& (cli.excludes@.len() == 0 ==> exc is None)
            &&& filters.root@ == model.root_path@
            &&& filters.match_mode == cli.match_mode
            &&& (match (cli.filter_regex, filters.regex) {
                (Option::Some(p), Option::Some(re)) => crate::pattern::regex_patterns(re)
                    == seq![p@],
                (Option::None, Option::None) => true,
                _ => false,
            })
            &&& (match (cli.filter_size, filters.size) {
                (Option::Some(sp), Option::Some(sf)) => crate::filters::spec_parse_size(sp@)
                    == Option::Some(sf),
                (Option::None, Option::None) => true,
                _ => false,
            })
            &&& (match (cli.filter_mtime, filters.mtime) {
                (Option::Some(sp), Option::Some(mf)) => crate::filters::spec_parse_mtime(sp@, now)
                    == Option::Some(mf),
                (Option::None, Option::None) => true,
                _ => false,
            })
            &&& (match (cli.filter_perm, filters.perm) {
                (Option::Some(sp), Option::Some(pf)) => crate::filters::spec_parse_perm(sp@)
                    == Option::Some(pf),
                (Option::None, Option::None) => true,
                _ => false,
            })
            &&& items.len() >= 1
            &&& items[0] == crate::engine::spec_root_item(model, git)
            &&& (forall|i: int|
                0 <= i < items.len() ==> ((#[trigger] items[i]).entry.loop_detected
                    ==> !items[i].descend))
            &&& (forall|f: int|
                0 <= f < logs.len() ==> crate::engine::frame_log_from_model(
                    #[trigger] logs[f],
                    model,
                    cli,
                    inc,
                    exc,
                    &filters,
                    git,
                ) && crate::engine::frame_log_wf(logs[f], items, model, cli))
            &&& (forall|f1: int, f2: int|
                0 <= f1 < f2 < logs.len() ==> (#[trigger] logs[f1]).canon
                    != (#[trigger] logs[f2]).canon)
            &&& crate::engine::logs_positions(logs).to_multiset() == crate::engine::idx_range(
                1,
                items.len() as int,
            ).to_multiset()
            &&& (logs.len() > 0 ==> (logs[0].opener == 0 && logs[0].path == model.root_path@
                && logs[0].canon == crate::engine::spec_root_key(model) && logs[0].depth == 1
                && logs[0].prefix == Seq::<char>::empty()))
            &&& (forall|f: int|
                1 <= f < logs.len() ==> crate::engine::frame_opened_at(#[trigger] logs[f], items))
            &&& ((crate::meta::spec_points_to_directory(model.root_meta@) && cli.max_depth
                != Option::<usize>::Some(1) && crate::engine::spec_opens(
                model,
                model.root_path@,
                cli,
                inc,
                exc,
                &filters,
            )) ==> logs.len() > 0)
            &&& (forall|j: int|
                1 <= j < items.len() && (#[trigger] items[j]).descend && crate::engine::spec_opens(
                    model,
                    items[j].entry.path,
                    cli,
                    inc,
                    exc,
                    &filters,
                ) ==> crate::engine::some_log_opened_at(logs, j))
            &&& crate::engine::logs_nested(logs)
            &&& (match cli.format {
                crate::config::Format::Plain => out == spec_plain_output(
                    model.root_path@,
                    items,
                ),
                crate::config::Format::Json => out == "["@ + spec_json_body(items_entries(items))
                    + "\n]\n"@,
                crate::config::Format::Ndjson => out == concat_texts(
                    spec_ndjson_records(items_entries(items)),
                ),
                crate::config::Format::Csv => out == spec_csv_header() + concat_texts(
                    spec_csv_records(items_entries(items)),
                ),
                crate::config::Format::Yaml => out == spec_yaml_doc_text_v(
                    spec_yaml_doc_from(items, items[0].descend && !spec_depth_limited(cli)),
                ),
                crate::config::Format::Html => out == spec_html_output(items_entries(items)),
            })
        }
}

/// Runs one tree inspection over the modelled subtree: compiles the filter
/// pipeline from configuration, validates the worker count, walks the model,
/// and renders the stream in the configured format.
///
/// Fails exactly when the configuration is invalid; on success the returned
/// text is the configured renderer's exact output for the walked stream, as
/// [`spec_run_output`] describes. Per-entry and per-directory problems never
/// fail the run (they surface in the entries themselves).
pub fn run_tree(
    cli: &Cli,
    model: &crate::engine::FsModel,
    git: &crate::gitmap::GitTracker,
    now: u64,
) -> (r: Result<String, String>)
    requires
        crate::engine::spec_model_wf(model),
        !model.root_meta@.loop_detected,
    ensures
        r is Ok <==> spec_config_ok(cli, now),
        r matches Ok(s) ==> spec_run_output(cli, model, git, now, s@),
{
    let inc = match crate::pattern::build_patterns(&cli.includes, cli.pattern_syntax, true) {
        Result::Ok(v) => v,
        Result::Err(e) => {
            return Result::Err(e);
        },
    };
    let exc = match crate::pattern::build_patterns(&cli.excludes, cli.pattern_syntax, false) {
        Result::Ok(v) => v,
        Result::Err(e) => {
            return Result::Err(e);
        },
    };
    let filters = match crate::filters::Filters::from_cli(cli, model.root_path.as_str(), now) {
        Result::Ok(f) => f,
        Result::Err(e) => {
            return Result::Err(e);
        },
    };
    let _jobs = match crate::resolver::JobPool::new(cli) {
        Result::Ok(p) => p,
        Result::Err(e) => {
            return Result::Err(e);
        },
    };
    let (items, frame_logs) = crate::engine::walk(model, cli, &inc, &exc, &filters, git);
    let depth_limited = match cli.max_depth {
        Option::Some(d) => d == 1,
        Option::None => false,
    };
    let rollup_root = items[0].descend && !depth_limited;
    let out: String = match cli.format {
        crate::config::Format::Plain => run_tree_plain(model.root_path.as_str(), &items),
        crate::config::Format::Json => run_tree_json(&items),
        crate::config::Format::Ndjson => run_tree_ndjson(&items),
        crate::config::Format::Csv => run_tree_csv(&items),
        crate::config::Format::Yaml => run_tree_yaml(&items, rollup_root),
        crate::config::Format::Html => run_tree_html(&items),
    };
    proof {
        assert(run_witness(items_view(items@), frame_logs@, inc, exc, filters));
        assert(items_view(items@)[0] == items@[0]@);
        assert(items_view(items@)[0].descend == items@[0]@.descend);
        assert(spec_run_output(cli, model, git, now, out@));
    }
    Result::Ok(out)
}

} // verus!
