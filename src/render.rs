use vstd::prelude::*;
use crate::value::{Json, Number, Value, view_items, view_members, lemma_view_items, lemma_view_members};
use crate::diff::{Seg, ChangeModel, EntryModel, Segment, Change, DiffEntry, DiffResult, path_view, entries_view};
use crate::text::{digit_char, decimal, int_text, escaped, push_char, push_text, push_int, push_decimal, push_escaped};

verus! {

/// How a JSON string literal writes one character: quote, backslash and the
/// control characters below U+0020 are escaped, the latter as `\b`, `\t`,
/// `\n`, `\f`, `\r` where they have a short form and as `\u00` with two
/// lower-case hexadecimal digits otherwise.
pub open spec fn json_char(c: char) -> Seq<char> {
    let n = c as u32;
    if c == '"' {
        seq!['\\', '"']
    } else if c == '\\' {
        seq!['\\', '\\']
    } else if n == 8 {
        seq!['\\', 'b']
    } else if n == 9 {
        seq!['\\', 't']
    } else if n == 10 {
        seq!['\\', 'n']
    } else if n == 12 {
        seq!['\\', 'f']
    } else if n == 13 {
        seq!['\\', 'r']
    } else if n < 0x20 {
        seq!['\\', 'u', '0', '0', digit_char((n / 16) as nat), digit_char((n % 16) as nat)]
    } else {
        seq![c]
    }
}

pub open spec fn json_chars(s: Seq<char>) -> Seq<char>
    decreases s.len(),
{
    if s.len() == 0 {
        Seq::empty()
    } else {
        json_chars(s.drop_last()) + json_char(s.last())
    }
}

/// A string as a JSON string literal: in double quotes, each character
/// written as `json_char` says.
pub open spec fn json_quoted(s: Seq<char>) -> Seq<char> {
    seq!['"'] + json_chars(s) + seq!['"']
}

/// Relies on serde_json::to_string applied to a string slice: the string as a
/// JSON string literal (its `format_escaped_str` and `ESCAPE` table).
/// Serialising a string writes into memory and does not fail.
#[verifier::external_body]
fn quote_json(s: &str) -> (r: String)
    ensures
        r@ == json_quoted(s@),
{
    serde_json::to_string(s).unwrap_or_default()
}

/// The compact JSON text of a value.
pub open spec fn json_text(j: Json) -> Seq<char>
    decreases j, 0int,
{
    match j {
        Json::Null => seq!['n', 'u', 'l', 'l'],
        Json::Bool(b) => if b {
            seq!['t', 'r', 'u', 'e']
        } else {
            seq!['f', 'a', 'l', 's', 'e']
        },
        Json::Int(i) => int_text(i),
        Json::Float(t) => t,
        Json::Str(s) => json_quoted(s),
        Json::Array(xs) => seq!['['] + items_text(xs, xs.len() as int) + seq![']'],
        Json::Object(ms) => seq!['{'] + members_text(ms, ms.len() as int) + seq!['}'],
    }
}

/// The first `n` items, separated by commas.
pub open spec fn items_text(xs: Seq<Json>, n: int) -> Seq<char>
    decreases xs, n,
{
    if n <= 0 || n > xs.len() {
        Seq::empty()
    } else if n == 1 {
        json_text(xs[0])
    } else {
        items_text(xs, n - 1) + seq![','] + json_text(xs[n - 1])
    }
}

/// The first `n` members as `"name":value`, separated by commas.
pub open spec fn members_text(ms: Seq<(Seq<char>, Json)>, n: int) -> Seq<char>
    decreases ms, n,
{
    if n <= 0 || n > ms.len() {
        Seq::empty()
    } else if n == 1 {
        json_quoted(ms[0].0) + seq![':'] + json_text(ms[0].1)
    } else {
        members_text(ms, n - 1) + seq![','] + json_quoted(ms[n - 1].0) + seq![':'] + json_text(
            ms[n - 1].1,
        )
    }
}

/// A path as text: member names joined by `.`, positions as `[i]`.
pub open spec fn path_text(p: Seq<Seg>) -> Seq<char>
    decreases p.len(),
{
    if p.len() == 0 {
        Seq::empty()
    } else {
        path_text(p.drop_last()) + match p.last() {
            Seg::Field(k) => if p.len() == 1 {
                k
            } else {
                seq!['.'] + k
            },
            Seg::Index(i) => seq!['['] + decimal(i as nat) + seq![']'],
        }
    }
}

/// One entry before escaping: `+`, `-` or `~`, then the path and a colon
/// unless it is the root, then the value, or the old and the new value.
pub open spec fn raw_line(e: EntryModel) -> Seq<char> {
    let marker = match e.1 {
        ChangeModel::Added(_) => '+',
        ChangeModel::Removed(_) => '-',
        ChangeModel::Changed(_, _) => '~',
    };
    let place = if e.0.len() == 0 {
        Seq::empty()
    } else {
        seq![' '] + path_text(e.0) + seq![':']
    };
    let values = match e.1 {
        ChangeModel::Added(v) => json_text(v),
        ChangeModel::Removed(v) => json_text(v),
        ChangeModel::Changed(a, b) => json_text(a) + seq![' ', '-', '>', ' '] + json_text(b),
    };
    seq![marker] + place + seq![' '] + values
}

/// One entry as a line of text, with every control character escaped.
pub open spec fn line(e: EntryModel) -> Seq<char> {
    escaped(raw_line(e), false)
}

/// All entries, each on a line of its own that ends in a newline.
pub open spec fn rendered(es: Seq<EntryModel>) -> Seq<char>
    decreases es.len(),
{
    if es.len() == 0 {
        Seq::empty()
    } else {
        rendered(es.drop_last()) + line(es.last()).push('\n')
    }
}

/// Appends the compact JSON text of `v`.
pub fn write_json(out: &mut String, v: &Value)
    ensures
        final(out)@ == old(out)@ + json_text(v.view()),
    decreases v,
{
    let ghost o0 = out@;
    match v {
        Value::Null => {
            push_text(out, "null");
            proof { reveal_strlit("null"); }
            assert(out@ =~= o0 + json_text(v.view()));
        },
        Value::Bool(b) => {
            if *b {
                push_text(out, "true");
                proof { reveal_strlit("true"); }
            } else {
                push_text(out, "false");
                proof { reveal_strlit("false"); }
            }
            assert(out@ =~= o0 + json_text(v.view()));
        },
        Value::Number(Number::Int(i)) => {
            push_int(out, *i);
        },
        Value::Number(Number::Float(t)) => {
            push_text(out, t.as_str());
        },
        Value::String(s) => {
            let q = quote_json(s.as_str());
            push_text(out, q.as_str());
        },
        Value::Array(xs) => {
            let ghost xv = view_items(xs@);
            proof {
                lemma_view_items(xs@);
            }
            push_char(out, '[');
            let mut i: usize = 0;
            while i < xs.len()
                invariant
                    *v == Value::Array(*xs),
                    i <= xs.len(),
                    xv == view_items(xs@),
                    xv.len() == xs.len(),
                    forall|j: int| 0 <= j < xs.len() ==> #[trigger] xv[j] == xs@[j].view(),
                    out@ == o0.push('[') + items_text(xv, i as int),
                decreases xs.len() - i,
            {
                proof {
                    assert(decreases_to!(*v => v->Array_0));
                    assert(decreases_to!(xs => xs[i as int]));
                }
                if i > 0 {
                    push_char(out, ',');
                }
                write_json(out, &xs[i]);
                i = i + 1;
                assert(out@ =~= o0.push('[') + items_text(xv, i as int));
            }
            push_char(out, ']');
            assert(out@ =~= o0 + json_text(v.view()));
        },
        Value::Object(ms) => {
            let ghost mv = view_members(ms@);
            proof {
                lemma_view_members(ms@);
            }
            push_char(out, '{');
            let mut i: usize = 0;
            while i < ms.len()
                invariant
                    *v == Value::Object(*ms),
                    i <= ms.len(),
                    mv == view_members(ms@),
                    mv.len() == ms.len(),
                    forall|j: int| 0 <= j < ms.len() ==> #[trigger] mv[j] == (ms@[j].0@, ms@[j].1.view()),
                    out@ == o0.push('{') + members_text(mv, i as int),
                decreases ms.len() - i,
            {
                proof {
                    assert(decreases_to!(*v => v->Object_0));
                    assert(decreases_to!(ms => ms[i as int]));
                    assert(decreases_to!(ms[i as int] => ms[i as int].1));
                }
                if i > 0 {
                    push_char(out, ',');
                }
                let q = quote_json(ms[i].0.as_str());
                push_text(out, q.as_str());
                push_char(out, ':');
                write_json(out, &ms[i].1);
                i = i + 1;
                assert(out@ =~= o0.push('{') + members_text(mv, i as int));
            }
            push_char(out, '}');
            assert(out@ =~= o0 + json_text(v.view()));
        },
    }
}


fn write_path(out: &mut String, path: &Vec<Segment>)
    ensures
        final(out)@ == old(out)@ + path_text(path_view(path@)),
{
    let ghost o0 = out@;
    let mut i: usize = 0;
    while i < path.len()
        invariant
            i <= path.len(),
            out@ == o0 + path_text(path_view(path@.subrange(0, i as int))),
        decreases path.len() - i,
    {
        let ghost before = out@;
        let ghost p = path_view(path@.subrange(0, i + 1));
        assert(p.drop_last() =~= path_view(path@.subrange(0, i as int)));
        assert(p.last() == path@[i as int].view());
        match &path[i] {
            Segment::Field(k) => {
                if i > 0 {
                    push_char(out, '.');
                }
                push_text(out, k.as_str());
            },
            Segment::Index(n) => {
                push_char(out, '[');
                push_decimal(out, *n as u128);
                push_char(out, ']');
            },
        }
        assert(out@ =~= o0 + path_text(p));
        i = i + 1;
    }
    assert(path@.subrange(0, i as int) =~= path@);
}

/// Appends one entry as a line, with its newline.
fn write_line(out: &mut String, e: &DiffEntry)
    ensures
        final(out)@ == old(out)@ + line(e.view()).push('\n'),
{
    let mut raw = String::new();
    let ghost pv = path_view(e.path@);
    match &e.change {
        Change::Added(_) => push_char(&mut raw, '+'),
        Change::Removed(_) => push_char(&mut raw, '-'),
        Change::Changed(_, _) => push_char(&mut raw, '~'),
    }
    let ghost r1 = raw@;
    if e.path.len() > 0 {
        push_char(&mut raw, ' ');
        write_path(&mut raw, &e.path);
        push_char(&mut raw, ':');
    }
    let ghost r2 = raw@;
    push_char(&mut raw, ' ');
    let ghost r3 = raw@;
    match &e.change {
        Change::Added(v) => write_json(&mut raw, v),
        Change::Removed(v) => write_json(&mut raw, v),
        Change::Changed(a, b) => {
            write_json(&mut raw, a);
            push_text(&mut raw, " -> ");
            proof { reveal_strlit(" -> "); }
            write_json(&mut raw, b);
        },
    }
    assert(raw@ =~= raw_line(e.view()));
    push_escaped(out, raw.as_str(), false);
    push_char(out, '\n');
}

impl DiffResult {
    /// The differences as text, one line for each, each line ending in a
    /// newline. With a single difference this is one line that can follow
    /// other text on the same line.
    pub fn render(&self) -> (r: String)
        ensures
            r@ == rendered(self.view()),
    {
        let es = self.entries();
        let mut out = String::new();
        let mut i: usize = 0;
        while i < es.len()
            invariant
                i <= es.len(),
                entries_view(es@) == self.view(),
                out@ == rendered(entries_view(es@.subrange(0, i as int))),
            decreases es.len() - i,
        {
            let ghost s = entries_view(es@.subrange(0, i + 1));
            assert(s.drop_last() =~= entries_view(es@.subrange(0, i as int)));
            write_line(&mut out, &es[i]);
            i = i + 1;
        }
        assert(es@.subrange(0, i as int) =~= es@);
        out
    }
}

/// All entries, each on a line of its own indented by four spaces.
pub open spec fn indented(es: Seq<EntryModel>) -> Seq<char>
    decreases es.len(),
{
    if es.len() == 0 {
        Seq::empty()
    } else {
        indented(es.drop_last()) + seq![' ', ' ', ' ', ' '] + line(es.last()).push('\n')
    }
}

pub open spec fn stamp_view(stamp: Option<&str>) -> Option<Seq<char>> {
    match stamp {
        Some(t) => Some(t@),
        None => None,
    }
}

/// The text of one report. A timestamp, where there is one, comes first,
/// followed by a space where there is a single entry and by a newline
/// otherwise. A single entry then follows on the same line; several are
/// indented, each on a line of its own.
pub open spec fn report_text(stamp: Option<Seq<char>>, es: Seq<EntryModel>) -> Seq<char> {
    let head = match stamp {
        Some(t) => if es.len() == 1 {
            t.push(' ')
        } else {
            t.push('\n')
        },
        None => Seq::empty(),
    };
    head + if es.len() == 1 {
        rendered(es)
    } else {
        indented(es)
    }
}

impl DiffResult {
    /// The differences as one report, headed by `stamp` where there is one
    /// (see `report_text`).
    pub fn report(&self, stamp: Option<&str>) -> (r: String)
        ensures
            r@ == report_text(stamp_view(stamp), self.view()),
    {
        let es = self.entries();
        let mut out = String::new();
        match stamp {
            Some(t) => {
                push_text(&mut out, t);
                if es.len() == 1 {
                    push_char(&mut out, ' ');
                } else {
                    push_char(&mut out, '\n');
                }
            },
            None => {},
        }
        if es.len() == 1 {
            let body = self.render();
            push_text(&mut out, body.as_str());
            return out;
        }
        let ghost head = out@;
        let mut i: usize = 0;
        while i < es.len()
            invariant
                i <= es.len(),
                entries_view(es@) == self.view(),
                out@ == head + indented(entries_view(es@.subrange(0, i as int))),
            decreases es.len() - i,
        {
            let ghost s = entries_view(es@.subrange(0, i + 1));
            assert(s.drop_last() =~= entries_view(es@.subrange(0, i as int)));
            push_text(&mut out, "    ");
            proof {
                reveal_strlit("    ");
            }
            write_line(&mut out, &es[i]);
            i = i + 1;
            assert(out@ =~= head + indented(s));
        }
        assert(es@.subrange(0, i as int) =~= es@);
        out
    }
}

} // verus!
