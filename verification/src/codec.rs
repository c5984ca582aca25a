//! The on-disk text format: one header line, then one delimited row per
//! record, fields quoted by the standard rules (a field containing a
//! comma, quote, newline or carriage return is wrapped in quotes, with
//! inner quotes doubled).
//!
//! The format is specified twice over: `enc_record` says what a record's
//! row looks like, the `parse_*` spec functions say what any input text
//! denotes, and `lemma_record_round_trip` proves that every well-formed
//! record survives the trip through its row unchanged.

use vstd::prelude::*;
use vstd::string::*;

use crate::category::{lemma_label_round_trip, PomodoroType};
use crate::error::StoreError;
use crate::record::{record_valid, Pomodoro, RecordView};
use crate::time::{
    char_digit, digit_char, digit_of, digit_to_char, format_rfc3339, is_digit,
    lemma_rfc3339_round_trip, parse_rfc3339, push_char, spec_fmt_rfc3339, spec_parse_rfc3339,
};

verus! {

// ------------------------------------------------------------------
// Decimal rendering of the duration field.
// ------------------------------------------------------------------

/// The decimal rendering of a non-negative integer, no leading zeros.
pub open spec fn dec_digits(n: int) -> Seq<char>
    decreases n,
{
    if n < 10 {
        seq![digit_char(n)]
    } else {
        dec_digits(n / 10).push(digit_char(n % 10))
    }
}

pub open spec fn all_digits(s: Seq<char>) -> bool {
    forall|i: int| 0 <= i < s.len() ==> is_digit(#[trigger] s[i])
}

/// The value of a digit string, most significant first.
pub open spec fn digits_value(s: Seq<char>) -> int
    decreases s.len(),
{
    if s.len() == 0 {
        0
    } else {
        digits_value(s.drop_last()) * 10 + char_digit(s.last())
    }
}

/// What a duration field denotes: the value of a non-empty digit string
/// that fits in 32 bits, or -1.
pub open spec fn parse_dec(s: Seq<char>) -> int {
    if s.len() > 0 && all_digits(s) && digits_value(s) < 0x100000000 {
        digits_value(s)
    } else {
        -1
    }
}

proof fn lemma_digits_value_nonneg(s: Seq<char>)
    requires
        all_digits(s),
    ensures
        digits_value(s) >= 0,
    decreases s.len(),
{
    if s.len() > 0 {
        assert(all_digits(s.drop_last()));
        lemma_digits_value_nonneg(s.drop_last());
        assert(is_digit(s.last()));
    }
}

proof fn lemma_digits_value_extend(s: Seq<char>, i: int)
    requires
        0 <= i < s.len(),
    ensures
        digits_value(s.subrange(0, i + 1)) == digits_value(s.subrange(0, i)) * 10 + char_digit(
            s[i],
        ),
{
    let t = s.subrange(0, i + 1);
    assert(t.drop_last() =~= s.subrange(0, i));
    assert(t.last() == s[i]);
}

proof fn lemma_digits_value_mono(s: Seq<char>, i: int)
    requires
        all_digits(s),
        0 <= i <= s.len(),
    ensures
        digits_value(s.subrange(0, i)) <= digits_value(s),
    decreases s.len() - i,
{
    if i == s.len() {
        assert(s.subrange(0, i) =~= s);
    } else {
        lemma_digits_value_extend(s, i);
        assert(all_digits(s.subrange(0, i)));
        lemma_digits_value_nonneg(s.subrange(0, i));
        assert(is_digit(s[i]));
        lemma_digits_value_mono(s, i + 1);
    }
}

/// The decimal rendering of `n` denotes `n` again.
pub proof fn lemma_dec_round_trip(n: int)
    requires
        0 <= n < 0x100000000,
    ensures
        parse_dec(dec_digits(n)) == n,
{
    lemma_dec_digits_value(n);
}

proof fn lemma_dec_digits_value(n: int)
    requires
        n >= 0,
    ensures
        all_digits(dec_digits(n)),
        digits_value(dec_digits(n)) == n,
        dec_digits(n).len() >= 1,
    decreases n,
{
    if n < 10 {
        let s = dec_digits(n);
        assert(s.drop_last() =~= Seq::<char>::empty());
        assert(s[0] == digit_char(n));
        assert(is_digit(s[0]));
        assert(s.last() == digit_char(n));
        assert(char_digit(digit_char(n)) == n);
        assert(digits_value(Seq::<char>::empty()) == 0);
    } else {
        lemma_dec_digits_value(n / 10);
        let s = dec_digits(n);
        assert(s.drop_last() =~= dec_digits(n / 10));
        assert(s.last() == digit_char(n % 10));
        assert(n == (n / 10) * 10 + n % 10) by (nonlinear_arith);
        assert forall|i: int| 0 <= i < s.len() implies is_digit(#[trigger] s[i]) by {
            if i < s.len() - 1 {
                assert(s[i] == dec_digits(n / 10)[i]);
                assert(is_digit(dec_digits(n / 10)[i]));
            } else {
                assert(s[i] == digit_char(n % 10));
            }
        }
    }
}

fn format_dec_into(n: u32, out: &mut String)
    ensures
        final(out)@ == old(out)@ + dec_digits(n as int),
    decreases n,
{
    if n < 10 {
        push_char(out, digit_to_char(n));
        proof {
            assert(final(out)@ =~= old(out)@ + dec_digits(n as int));
        }
    } else {
        format_dec_into(n / 10, out);
        push_char(out, digit_to_char(n % 10));
        proof {
            assert(final(out)@ =~= old(out)@ + dec_digits(n as int));
        }
    }
}

/// Reads a non-empty all-digit string as a 32-bit value.
pub fn parse_dec_str(s: &str) -> (r: Option<u32>)
    ensures
        r is Some <==> parse_dec(s@) >= 0,
        r is Some ==> r.unwrap() == parse_dec(s@),
{
    let n = s.unicode_len();
    let mut i: usize = 0;
    let mut acc: u64 = 0;
    while i < n
        invariant
            0 <= i <= n,
            n == s@.len(),
            acc == digits_value(s@.subrange(0, i as int)),
            acc < 0x100000000,
            forall|k: int| 0 <= k < i ==> is_digit(#[trigger] s@[k]),
        decreases n - i,
    {
        let c = s.get_char(i);
        match digit_of(c) {
            None => {
                proof {
                    assert(!all_digits(s@));
                }
                return None;
            },
            Some(d) => {
                let acc2: u64 = acc * 10 + d as u64;
                proof {
                    lemma_digits_value_extend(s@, i as int);
                }
                if acc2 > 0xffffffff {
                    proof {
                        if all_digits(s@) {
                            lemma_digits_value_mono(s@, i as int + 1);
                        }
                    }
                    return None;
                }
                acc = acc2;
                i = i + 1;
            },
        }
    }
    if n == 0 {
        return None;
    }
    proof {
        assert(s@.subrange(0, n as int) =~= s@);
    }
    Some(acc as u32)
}

// ------------------------------------------------------------------
// Field quoting.
// ------------------------------------------------------------------

/// Characters that force a field into quotes.
pub open spec fn is_special(c: char) -> bool {
    c == ',' || c == '"' || c == '\n' || c == '\r'
}

pub open spec fn needs_quote(f: Seq<char>) -> bool {
    exists|i: int| 0 <= i < f.len() && is_special(#[trigger] f[i])
}

/// One character of a quoted field's body: quotes are doubled.
pub open spec fn enc_char(c: char) -> Seq<char> {
    if c == '"' {
        seq!['"', '"']
    } else {
        seq![c]
    }
}

/// The body of a quoted field.
pub open spec fn dq(f: Seq<char>) -> Seq<char>
    decreases f.len(),
{
    if f.len() == 0 {
        Seq::empty()
    } else {
        enc_char(f[0]) + dq(f.subrange(1, f.len() as int))
    }
}

/// The wire form of one field: raw if harmless, quoted otherwise.
pub open spec fn enc_field(f: Seq<char>) -> Seq<char> {
    if needs_quote(f) {
        seq!['"'] + dq(f) + seq!['"']
    } else {
        f
    }
}

/// Quoting distributes over concatenation.
proof fn lemma_dq_append(a: Seq<char>, b: Seq<char>)
    ensures
        dq(a + b) == dq(a) + dq(b),
    decreases a.len(),
{
    if a.len() == 0 {
        assert(a + b =~= b);
        assert(dq(a) + dq(b) =~= dq(b));
    } else {
        assert((a + b).subrange(1, (a + b).len() as int) =~= a.subrange(1, a.len() as int) + b);
        assert((a + b)[0] == a[0]);
        lemma_dq_append(a.subrange(1, a.len() as int), b);
        assert(enc_char(a[0]) + (dq(a.subrange(1, a.len() as int)) + dq(b)) =~= (enc_char(a[0])
            + dq(a.subrange(1, a.len() as int))) + dq(b));
    }
}

/// Appends the wire form of one field.
fn encode_field_into(f: &str, out: &mut String)
    ensures
        final(out)@ == old(out)@ + enc_field(f@),
{
    let n = f.unicode_len();
    let mut quote = false;
    let mut i: usize = 0;
    while i < n
        invariant
            0 <= i <= n,
            n == f@.len(),
            quote ==> needs_quote(f@),
            !quote ==> forall|k: int| 0 <= k < i ==> !is_special(#[trigger] f@[k]),
        decreases n - i,
    {
        let c = f.get_char(i);
        if c == ',' || c == '"' || c == '\n' || c == '\r' {
            quote = true;
        }
        i = i + 1;
    }
    if !quote {
        proof {
            assert(!needs_quote(f@));
        }
        out.append(f);
    } else {
        push_char(out, '"');
        let ghost mid = out@;
        let mut j: usize = 0;
        while j < n
            invariant
                0 <= j <= n,
                n == f@.len(),
                out@ == mid + dq(f@.subrange(0, j as int)),
            decreases n - j,
        {
            let c = f.get_char(j);
            let ghost before = out@;
            if c == '"' {
                push_char(out, '"');
                push_char(out, '"');
            } else {
                push_char(out, c);
            }
            proof {
                assert(out@ =~= before + enc_char(f@[j as int]));
                assert(f@.subrange(0, j as int + 1) =~= f@.subrange(0, j as int) + seq![
                    f@[j as int],
                ]);
                lemma_dq_append(f@.subrange(0, j as int), seq![f@[j as int]]);
                assert(seq![f@[j as int]].subrange(1, 1) =~= Seq::<char>::empty());
                assert(dq(seq![f@[j as int]]) =~= enc_char(f@[j as int]) + dq(
                    Seq::<char>::empty(),
                ));
                assert(dq(seq![f@[j as int]]) =~= enc_char(f@[j as int]));
                assert(out@ =~= mid + dq(f@.subrange(0, j as int + 1)));
            }
            j = j + 1;
        }
        push_char(out, '"');
        proof {
            assert(f@.subrange(0, n as int) =~= f@);
            assert(final(out)@ =~= old(out)@ + (seq!['"'] + dq(f@) + seq!['"']));
        }
    }
}

// ------------------------------------------------------------------
// Parsing fields back.
// ------------------------------------------------------------------

/// Reads an unquoted field starting at `i`: everything up to the next
/// comma, line end (newline or carriage return) or end of input. A
/// stray quote is a malformed row.
pub open spec fn parse_unquoted(s: Seq<char>, i: int) -> Option<(Seq<char>, int)>
    decreases s.len() - i
        when 0 <= i <= s.len()
{
    if i >= s.len() {
        Some((Seq::empty(), i))
    } else if s[i] == ',' || s[i] == '\n' || s[i] == '\r' {
        Some((Seq::empty(), i))
    } else if s[i] == '"' {
        None
    } else {
        match parse_unquoted(s, i + 1) {
            Some(vn) => Some((seq![s[i]] + vn.0, vn.1)),
            None => None,
        }
    }
}

/// Reads the body of a quoted field from just after the opening quote
/// through the closing quote; doubled quotes stand for one quote.
pub open spec fn parse_quoted(s: Seq<char>, i: int) -> Option<(Seq<char>, int)>
    decreases s.len() - i
        when 0 <= i <= s.len()
{
    if i >= s.len() {
        None
    } else if s[i] == '"' {
        if i + 1 < s.len() && s[i + 1] == '"' {
            match parse_quoted(s, i + 2) {
                Some(vn) => Some((seq!['"'] + vn.0, vn.1)),
                None => None,
            }
        } else {
            Some((Seq::empty(), i + 1))
        }
    } else {
        match parse_quoted(s, i + 1) {
            Some(vn) => Some((seq![s[i]] + vn.0, vn.1)),
            None => None,
        }
    }
}

/// Reads one field starting at `i`; the returned position sits on the
/// field's terminator (comma, newline, or end of input).
pub open spec fn parse_field_at(s: Seq<char>, i: int) -> Option<(Seq<char>, int)> {
    if i < s.len() && s[i] == '"' {
        match parse_quoted(s, i + 1) {
            Some(vn) => if vn.1 >= s.len() || s[vn.1] == ',' || s[vn.1] == '\n' || s[vn.1]
                == '\r' {
                Some(vn)
            } else {
                None
            },
            None => None,
        }
    } else {
        parse_unquoted(s, i)
    }
}

proof fn lemma_parse_unquoted_bounds(s: Seq<char>, i: int)
    requires
        0 <= i <= s.len(),
    ensures
        parse_unquoted(s, i) matches Some(vn) ==> i <= vn.1 <= s.len(),
    decreases s.len() - i,
{
    if i < s.len() && !(s[i] == ',' || s[i] == '\n') && !(s[i] == '"' || s[i] == '\r') {
        lemma_parse_unquoted_bounds(s, i + 1);
    }
}

proof fn lemma_parse_quoted_bounds(s: Seq<char>, i: int)
    requires
        0 <= i <= s.len(),
    ensures
        parse_quoted(s, i) matches Some(vn) ==> i < vn.1 <= s.len(),
    decreases s.len() - i,
{
    if i < s.len() {
        if s[i] == '"' {
            if i + 1 < s.len() && s[i + 1] == '"' {
                lemma_parse_quoted_bounds(s, i + 2);
            }
        } else {
            lemma_parse_quoted_bounds(s, i + 1);
        }
    }
}

pub proof fn lemma_parse_field_bounds(s: Seq<char>, i: int)
    requires
        0 <= i <= s.len(),
    ensures
        parse_field_at(s, i) matches Some(vn) ==> i <= vn.1 <= s.len(),
{
    lemma_parse_unquoted_bounds(s, i);
    if i < s.len() && s[i] == '"' {
        lemma_parse_quoted_bounds(s, i + 1);
    }
}

fn parse_quoted_body(s: &str, from: usize) -> (r: Option<(String, usize)>)
    requires
        from <= s@.len(),
        s@.len() <= usize::MAX,
    ensures
        r is Some <==> parse_quoted(s@, from as int) is Some,
        r matches Some((f, n)) ==> parse_quoted(s@, from as int) == Some((f@, n as int)),
{
    let len = s.unicode_len();
    let mut i: usize = from;
    let mut out = String::new();
    let mut end: usize = 0;
    let mut failed = false;
    loop
        invariant_except_break
            !failed,
        invariant
            from <= i <= len,
            len == s@.len(),
            len <= usize::MAX,
            parse_quoted(s@, from as int) == (match parse_quoted(s@, i as int) {
                Some(vn) => Some((out@ + vn.0, vn.1)),
                None => None::<(Seq<char>, int)>,
            }),
        ensures
            failed ==> parse_quoted(s@, from as int) is None,
            !failed ==> parse_quoted(s@, from as int) == Some((out@, end as int)),
        decreases len - i,
    {
        if i >= len {
            failed = true;
            break;
        }
        let c = s.get_char(i);
        let ghost before = out@;
        if c == '"' {
            if i + 1 < len && s.get_char(i + 1) == '"' {
                push_char(&mut out, '"');
                proof {
                    if let Some(vn) = parse_quoted(s@, i as int + 2) {
                        assert(before + (seq!['"'] + vn.0) =~= before.push('"') + vn.0);
                    }
                }
                i = i + 2;
            } else {
                end = i + 1;
                proof {
                    assert(parse_quoted(s@, i as int) == Some(
                        (Seq::<char>::empty(), i as int + 1),
                    ));
                    assert(out@ + Seq::<char>::empty() =~= out@);
                }
                break;
            }
        } else {
            push_char(&mut out, c);
            proof {
                if let Some(vn) = parse_quoted(s@, i as int + 1) {
                    assert(before + (seq![s@[i as int]] + vn.0) =~= before.push(s@[i as int])
                        + vn.0);
                }
            }
            i = i + 1;
        }
    }
    if failed {
        None
    } else {
        Some((out, end))
    }
}

fn parse_unquoted_body(s: &str, from: usize) -> (r: Option<(String, usize)>)
    requires
        from <= s@.len(),
        s@.len() <= usize::MAX,
    ensures
        r is Some <==> parse_unquoted(s@, from as int) is Some,
        r matches Some((f, n)) ==> parse_unquoted(s@, from as int) == Some((f@, n as int)),
{
    let len = s.unicode_len();
    let mut i: usize = from;
    let mut out = String::new();
    let mut failed = false;
    loop
        invariant_except_break
            !failed,
        invariant
            from <= i <= len,
            len == s@.len(),
            len <= usize::MAX,
            parse_unquoted(s@, from as int) == (match parse_unquoted(s@, i as int) {
                Some(vn) => Some((out@ + vn.0, vn.1)),
                None => None::<(Seq<char>, int)>,
            }),
        ensures
            failed ==> parse_unquoted(s@, from as int) is None,
            !failed ==> parse_unquoted(s@, from as int) == Some((out@, i as int)),
        decreases len - i,
    {
        if i >= len {
            proof {
                assert(out@ + Seq::<char>::empty() =~= out@);
            }
            break;
        }
        let c = s.get_char(i);
        if c == ',' || c == '\n' || c == '\r' {
            proof {
                assert(out@ + Seq::<char>::empty() =~= out@);
            }
            break;
        }
        if c == '"' {
            failed = true;
            break;
        }
        let ghost before = out@;
        push_char(&mut out, c);
        proof {
            if let Some(vn) = parse_unquoted(s@, i as int + 1) {
                assert(before + (seq![s@[i as int]] + vn.0) =~= before.push(s@[i as int]) + vn.0);
            }
        }
        i = i + 1;
    }
    if failed {
        None
    } else {
        Some((out, i))
    }
}

/// Reads one field; mirrors `parse_field_at`.
fn parse_field(s: &str, start: usize) -> (r: Option<(String, usize)>)
    requires
        start <= s@.len(),
        s@.len() <= usize::MAX,
    ensures
        r is Some <==> parse_field_at(s@, start as int) is Some,
        r matches Some((f, n)) ==> parse_field_at(s@, start as int) == Some((f@, n as int)),
{
    let len = s.unicode_len();
    if start < len && s.get_char(start) == '"' {
        match parse_quoted_body(s, start + 1) {
            None => None,
            Some((body, end)) => {
                proof {
                    lemma_parse_quoted_bounds(s@, start as int + 1);
                }
                if end >= len {
                    Some((body, end))
                } else {
                    let t = s.get_char(end);
                    if t == ',' || t == '\n' || t == '\r' {
                        Some((body, end))
                    } else {
                        None
                    }
                }
            },
        }
    } else {
        parse_unquoted_body(s, start)
    }
}

// ------------------------------------------------------------------
// Rows and whole files.
// ------------------------------------------------------------------

/// What the notes field holds on the wire: absent notes are the empty
/// string (the two are indistinguishable on disk).
pub open spec fn notes_str(n: Option<Seq<char>>) -> Seq<char> {
    match n {
        Some(s) => s,
        None => Seq::empty(),
    }
}

/// The seven wire fields of a record, in column order.
pub open spec fn record_fields(v: RecordView) -> Seq<Seq<char>> {
    seq![
        v.id,
        v.name,
        v.pomodoro_type.label(),
        spec_fmt_rfc3339(v.start_time),
        spec_fmt_rfc3339(v.end_time),
        dec_digits(v.duration_minutes as int),
        notes_str(v.notes),
    ]
}

/// The row's tail from the notes column on.
pub open spec fn enc_from_notes(v: RecordView) -> Seq<char> {
    enc_field(notes_str(v.notes)) + seq!['\n']
}

/// The row's tail from the duration column on.
pub open spec fn enc_from_duration(v: RecordView) -> Seq<char> {
    enc_field(dec_digits(v.duration_minutes as int)) + (seq![','] + enc_from_notes(v))
}

/// The row's tail from the end-time column on.
pub open spec fn enc_from_end(v: RecordView) -> Seq<char> {
    enc_field(spec_fmt_rfc3339(v.end_time)) + (seq![','] + enc_from_duration(v))
}

/// The row's tail from the start-time column on.
pub open spec fn enc_from_start(v: RecordView) -> Seq<char> {
    enc_field(spec_fmt_rfc3339(v.start_time)) + (seq![','] + enc_from_end(v))
}

/// The row's tail from the category column on.
pub open spec fn enc_from_type(v: RecordView) -> Seq<char> {
    enc_field(v.pomodoro_type.label()) + (seq![','] + enc_from_start(v))
}

/// The row's tail from the name column on.
pub open spec fn enc_from_name(v: RecordView) -> Seq<char> {
    enc_field(v.name) + (seq![','] + enc_from_type(v))
}

/// One record's row: the seven encoded fields, comma-separated,
/// newline-terminated.
pub open spec fn enc_record(v: RecordView) -> Seq<char> {
    enc_field(v.id) + (seq![','] + enc_from_name(v))
}

/// The header line that opens every store file.
pub open spec fn header_text() -> Seq<char> {
    "id,name,type,start_time,end_time,duration_minutes,notes\n"@
}

/// The views of a sequence of records.
pub open spec fn views(s: Seq<Pomodoro>) -> Seq<RecordView> {
    s.map_values(|p: Pomodoro| p@)
}

/// The rows of a record sequence, in order.
pub open spec fn enc_rows(vs: Seq<RecordView>) -> Seq<char>
    decreases vs.len(),
{
    if vs.len() == 0 {
        Seq::empty()
    } else {
        enc_rows(vs.drop_last()) + enc_record(vs.last())
    }
}

/// A whole store file: the header, then one row per record.
pub open spec fn enc_file(vs: Seq<RecordView>) -> Seq<char> {
    header_text() + enc_rows(vs)
}

/// Appends the row tail from the notes column on.
fn encode_from_notes(p: &Pomodoro, out: &mut String)
    ensures
        final(out)@ == old(out)@ + enc_from_notes(p@),
{
    match &p.notes {
        Some(notes) => {
            encode_field_into(notes.as_str(), out);
        },
        None => {
            proof {
                assert(enc_field(notes_str(p@.notes)) =~= Seq::<char>::empty());
            }
        },
    }
    push_char(out, '\n');
    proof {
        assert(final(out)@ =~= old(out)@ + enc_from_notes(p@));
    }
}

/// Appends the row tail from the duration column on.
fn encode_from_duration(p: &Pomodoro, out: &mut String)
    ensures
        final(out)@ == old(out)@ + enc_from_duration(p@),
{
    let mut ds = String::new();
    format_dec_into(p.duration_minutes, &mut ds);
    encode_field_into(ds.as_str(), out);
    push_char(out, ',');
    encode_from_notes(p, out);
    proof {
        assert(final(out)@ =~= old(out)@ + enc_from_duration(p@));
    }
}

/// Appends the row tail from the end-time column on.
fn encode_from_end(p: &Pomodoro, out: &mut String)
    requires
        record_valid(p@),
    ensures
        final(out)@ == old(out)@ + enc_from_end(p@),
{
    let en = format_rfc3339(&p.end_time);
    encode_field_into(en.as_str(), out);
    push_char(out, ',');
    encode_from_duration(p, out);
    proof {
        assert(final(out)@ =~= old(out)@ + enc_from_end(p@));
    }
}

/// Appends the row tail from the start-time column on.
fn encode_from_start(p: &Pomodoro, out: &mut String)
    requires
        record_valid(p@),
    ensures
        final(out)@ == old(out)@ + enc_from_start(p@),
{
    let st = format_rfc3339(&p.start_time);
    encode_field_into(st.as_str(), out);
    push_char(out, ',');
    encode_from_end(p, out);
    proof {
        assert(final(out)@ =~= old(out)@ + enc_from_start(p@));
    }
}

/// Appends the row tail from the category column on.
fn encode_from_type(p: &Pomodoro, out: &mut String)
    requires
        record_valid(p@),
    ensures
        final(out)@ == old(out)@ + enc_from_type(p@),
{
    let lab = p.pomodoro_type.to_label();
    encode_field_into(lab.as_str(), out);
    push_char(out, ',');
    encode_from_start(p, out);
    proof {
        assert(final(out)@ =~= old(out)@ + enc_from_type(p@));
    }
}

/// Appends the row tail from the name column on.
fn encode_from_name(p: &Pomodoro, out: &mut String)
    requires
        record_valid(p@),
    ensures
        final(out)@ == old(out)@ + enc_from_name(p@),
{
    encode_field_into(p.name.as_str(), out);
    push_char(out, ',');
    encode_from_type(p, out);
    proof {
        assert(final(out)@ =~= old(out)@ + enc_from_name(p@));
    }
}

/// Renders one record as its row (no header).
pub fn encode_row(p: &Pomodoro) -> (r: String)
    requires
        record_valid(p@),
    ensures
        r@ == enc_record(p@),
{
    let mut out = String::new();
    encode_field_into(p.id.as_str(), &mut out);
    push_char(&mut out, ',');
    encode_from_name(p, &mut out);
    proof {
        assert(out@ =~= enc_record(p@));
    }
    out
}

/// Renders the header line.
pub fn encode_header() -> (r: String)
    ensures
        r@ == header_text(),
{
    String::from_str("id,name,type,start_time,end_time,duration_minutes,notes\n")
}

/// Renders a whole store file: the header, then one row per record.
pub fn encode_file(records: &Vec<Pomodoro>) -> (r: String)
    requires
        forall|k: int| 0 <= k < records@.len() ==> record_valid(#[trigger] records@[k]@),
    ensures
        r@ == enc_file(views(records@)),
{
    let mut out = encode_header();
    let mut j: usize = 0;
    while j < records.len()
        invariant
            0 <= j <= records@.len(),
            forall|k: int| 0 <= k < records@.len() ==> record_valid(#[trigger] records@[k]@),
            out@ == header_text() + enc_rows(views(records@.subrange(0, j as int))),
        decreases records@.len() - j,
    {
        let row = encode_row(&records[j]);
        out.append(row.as_str());
        proof {
            let vs = views(records@.subrange(0, j as int + 1));
            assert(vs.drop_last() =~= views(records@.subrange(0, j as int)));
            assert(vs.last() == records@[j as int]@);
            assert(out@ =~= header_text() + enc_rows(vs));
        }
        j = j + 1;
    }
    proof {
        assert(records@.subrange(0, records@.len() as int) =~= records@);
    }
    out
}

/// Reads the seven fields of one row starting at `i`; the returned
/// position sits just past the row's terminating newline (or at the end
/// of input). A row with any other shape denotes nothing.
pub open spec fn parse_record_at(s: Seq<char>, i: int) -> Option<(Seq<Seq<char>>, int)> {
    match parse_field_at(s, i) {
        None => None,
        Some((f0, n0)) => if !(n0 < s.len() && s[n0] == ',') {
            None
        } else {
            match parse_field_at(s, n0 + 1) {
                None => None,
                Some((f1, n1)) => if !(n1 < s.len() && s[n1] == ',') {
                    None
                } else {
                    match parse_field_at(s, n1 + 1) {
                        None => None,
                        Some((f2, n2)) => if !(n2 < s.len() && s[n2] == ',') {
                            None
                        } else {
                            match parse_field_at(s, n2 + 1) {
                                None => None,
                                Some((f3, n3)) => if !(n3 < s.len() && s[n3] == ',') {
                                    None
                                } else {
                                    match parse_field_at(s, n3 + 1) {
                                        None => None,
                                        Some((f4, n4)) => if !(n4 < s.len() && s[n4] == ',') {
                                            None
                                        } else {
                                            match parse_field_at(s, n4 + 1) {
                                                None => None,
                                                Some((f5, n5)) => if !(n5 < s.len() && s[n5]
                                                    == ',') {
                                                    None
                                                } else {
                                                    match parse_field_at(s, n5 + 1) {
                                                        None => None,
                                                        Some((f6, n6)) => if n6 >= s.len() {
                                                            Some(
                                                                (
                                                                    seq![f0, f1, f2, f3, f4, f5, f6],
                                                                    s.len() as int,
                                                                ),
                                                            )
                                                        } else if s[n6] == '\n' {
                                                            Some(
                                                                (
                                                                    seq![f0, f1, f2, f3, f4, f5, f6],
                                                                    n6 + 1,
                                                                ),
                                                            )
                                                        } else if s[n6] == '\r' {
                                                            if n6 + 1 < s.len() && s[n6 + 1]
                                                                == '\n' {
                                                                Some(
                                                                    (
                                                                        seq![f0, f1, f2, f3, f4, f5, f6],
                                                                        n6 + 2,
                                                                    ),
                                                                )
                                                            } else {
                                                                Some(
                                                                    (
                                                                        seq![f0, f1, f2, f3, f4, f5, f6],
                                                                        n6 + 1,
                                                                    ),
                                                                )
                                                            }
                                                        } else {
                                                            None
                                                        },
                                                    }
                                                },
                                            }
                                        },
                                    }
                                },
                            }
                        },
                    }
                },
            }
        },
    }
}

/// The seven text fields of one row.
struct RowFields {
    id: String,
    name: String,
    typ: String,
    start: String,
    end: String,
    dur: String,
    notes: String,
}

impl RowFields {
    spec fn fields(&self) -> Seq<Seq<char>> {
        seq![self.id@, self.name@, self.typ@, self.start@, self.end@, self.dur@, self.notes@]
    }
}

fn parse_record(s: &str, start: usize) -> (r: Option<(RowFields, usize)>)
    requires
        start <= s@.len(),
        s@.len() <= usize::MAX,
    ensures
        r is Some <==> parse_record_at(s@, start as int) is Some,
        r matches Some((rf, n)) ==> parse_record_at(s@, start as int) == Some(
            (rf.fields(), n as int),
        ) && n <= s@.len(),
{
    let len = s.unicode_len();
    proof {
        lemma_parse_field_bounds(s@, start as int);
    }
    let (f0, n0) = match parse_field(s, start) {
        Some(v) => v,
        None => {
            return None;
        },
    };
    if !(n0 < len && s.get_char(n0) == ',') {
        return None;
    }
    proof {
        lemma_parse_field_bounds(s@, n0 as int + 1);
    }
    let (f1, n1) = match parse_field(s, n0 + 1) {
        Some(v) => v,
        None => {
            return None;
        },
    };
    if !(n1 < len && s.get_char(n1) == ',') {
        return None;
    }
    proof {
        lemma_parse_field_bounds(s@, n1 as int + 1);
    }
    let (f2, n2) = match parse_field(s, n1 + 1) {
        Some(v) => v,
        None => {
            return None;
        },
    };
    if !(n2 < len && s.get_char(n2) == ',') {
        return None;
    }
    proof {
        lemma_parse_field_bounds(s@, n2 as int + 1);
    }
    let (f3, n3) = match parse_field(s, n2 + 1) {
        Some(v) => v,
        None => {
            return None;
        },
    };
    if !(n3 < len && s.get_char(n3) == ',') {
        return None;
    }
    proof {
        lemma_parse_field_bounds(s@, n3 as int + 1);
    }
    let (f4, n4) = match parse_field(s, n3 + 1) {
        Some(v) => v,
        None => {
            return None;
        },
    };
    if !(n4 < len && s.get_char(n4) == ',') {
        return None;
    }
    proof {
        lemma_parse_field_bounds(s@, n4 as int + 1);
    }
    let (f5, n5) = match parse_field(s, n4 + 1) {
        Some(v) => v,
        None => {
            return None;
        },
    };
    if !(n5 < len && s.get_char(n5) == ',') {
        return None;
    }
    proof {
        lemma_parse_field_bounds(s@, n5 as int + 1);
    }
    let (f6, n6) = match parse_field(s, n5 + 1) {
        Some(v) => v,
        None => {
            return None;
        },
    };
    let rf = RowFields { id: f0, name: f1, typ: f2, start: f3, end: f4, dur: f5, notes: f6 };
    if n6 >= len {
        Some((rf, len))
    } else if s.get_char(n6) == '\n' {
        Some((rf, n6 + 1))
    } else if s.get_char(n6) == '\r' {
        if n6 + 1 < len && s.get_char(n6 + 1) == '\n' {
            Some((rf, n6 + 2))
        } else {
            Some((rf, n6 + 1))
        }
    } else {
        None
    }
}

/// What seven wire fields denote: a record, if the category, both
/// timestamps and the duration all make sense.
pub open spec fn interpret_fields(fs: Seq<Seq<char>>) -> Option<RecordView>
    recommends
        fs.len() == 7,
{
    let cat = PomodoroType::spec_from_label(fs[2]);
    let st = spec_parse_rfc3339(fs[3]);
    let en = spec_parse_rfc3339(fs[4]);
    let dur = parse_dec(fs[5]);
    if cat is Some && st is Some && en is Some && dur >= 0 {
        Some(
            RecordView {
                id: fs[0],
                name: fs[1],
                pomodoro_type: cat.unwrap(),
                start_time: st.unwrap(),
                end_time: en.unwrap(),
                duration_minutes: dur as u32,
                notes: if fs[6].len() == 0 {
                    None
                } else {
                    Some(fs[6])
                },
            },
        )
    } else {
        None
    }
}

/// What a whole string denotes as a single row.
pub open spec fn spec_decode_row(s: Seq<char>) -> Option<RecordView> {
    match parse_record_at(s, 0) {
        Some((fs, n)) => if n == s.len() {
            interpret_fields(fs)
        } else {
            None
        },
        None => None,
    }
}

/// Reads one row; fails on any malformed shape, unknown category, bad
/// timestamp or bad duration. The result is exactly what the text
/// denotes, and every decoded record is well-formed.
pub fn decode_row(s: &str) -> (r: Result<Pomodoro, StoreError>)
    requires
        s@.len() <= usize::MAX,
    ensures
        r is Ok <==> spec_decode_row(s@) is Some,
        r matches Ok(p) ==> Some(p@) == spec_decode_row(s@) && record_valid(p@),
        r matches Err(e) ==> e is DecodeError,
{
    let len = s.unicode_len();
    let (rf, n) = match parse_record(s, 0) {
        Some(v) => v,
        None => {
            return Err(StoreError::DecodeError(String::from_str("Failed to read record: malformed row")));
        },
    };
    if n != len {
        return Err(StoreError::DecodeError(String::from_str("Failed to read record: trailing data")));
    }
    interpret_row(rf)
}

/// Turns seven parsed fields into a record.
fn interpret_row(rf: RowFields) -> (r: Result<Pomodoro, StoreError>)
    ensures
        r is Ok <==> interpret_fields(rf.fields()) is Some,
        r matches Ok(p) ==> Some(p@) == interpret_fields(rf.fields()) && record_valid(p@),
        r matches Err(e) ==> e is DecodeError,
{
    let cat = match PomodoroType::from_label(rf.typ.as_str()) {
        Some(c) => c,
        None => {
            return Err(StoreError::DecodeError(String::from_str("Unknown pomodoro type")));
        },
    };
    let st = match parse_rfc3339(rf.start.as_str()) {
        Some(t) => t,
        None => {
            return Err(StoreError::DecodeError(String::from_str("Invalid start_time")));
        },
    };
    let en = match parse_rfc3339(rf.end.as_str()) {
        Some(t) => t,
        None => {
            return Err(StoreError::DecodeError(String::from_str("Invalid end_time")));
        },
    };
    let dur = match parse_dec_str(rf.dur.as_str()) {
        Some(d) => d,
        None => {
            return Err(StoreError::DecodeError(String::from_str("Invalid duration_minutes")));
        },
    };
    let notes = if rf.notes.as_str().unicode_len() == 0 {
        None
    } else {
        Some(rf.notes)
    };
    Ok(
        Pomodoro {
            id: rf.id,
            name: rf.name,
            pomodoro_type: cat,
            start_time: st,
            end_time: en,
            duration_minutes: dur,
            notes,
        },
    )
}

// ------------------------------------------------------------------
// The round trip: a well-formed record's row denotes the record.
// ------------------------------------------------------------------

proof fn lemma_parse_unquoted_of_plain(f: Seq<char>, s: Seq<char>, i: int)
    requires
        !needs_quote(f),
        0 <= i,
        i + f.len() <= s.len(),
        s.subrange(i, i + f.len()) == f,
        i + f.len() == s.len() || s[i + f.len()] == ',' || s[i + f.len()] == '\n',
    ensures
        parse_unquoted(s, i) == Some((f, i + f.len())),
    decreases f.len(),
{
    if f.len() == 0 {
    } else {
        assert(f[0] == s.subrange(i, i + f.len())[0]);
        assert(s[i] == f[0]);
        assert(!is_special(f[0])) by {
            if is_special(f[0]) {
                assert(needs_quote(f));
            }
        }
        let f1 = f.subrange(1, f.len() as int);
        assert(!needs_quote(f1)) by {
            if needs_quote(f1) {
                let j = choose|j: int| 0 <= j < f1.len() && is_special(f1[j]);
                assert(f1[j] == f[j + 1]);
                assert(is_special(f[j + 1]));
            }
        }
        assert(s.subrange(i + 1, i + 1 + f1.len()) =~= f1);
        lemma_parse_unquoted_of_plain(f1, s, i + 1);
        assert(seq![s[i]] + f1 =~= f);
    }
}

proof fn lemma_parse_quoted_of_dq(f: Seq<char>, s: Seq<char>, i: int)
    requires
        0 <= i,
        i + dq(f).len() + 1 <= s.len(),
        s.subrange(i, i + dq(f).len()) == dq(f),
        s[i + dq(f).len()] == '"',
        i + dq(f).len() + 1 == s.len() || s[i + dq(f).len() + 1] != '"',
    ensures
        parse_quoted(s, i) == Some((f, i + dq(f).len() + 1)),
    decreases f.len(),
{
    let e = i + dq(f).len();
    if f.len() == 0 {
        assert(dq(f).len() == 0);
    } else {
        let f1 = f.subrange(1, f.len() as int);
        assert(dq(f) == enc_char(f[0]) + dq(f1));
        if f[0] == '"' {
            assert(dq(f)[0] == '"' && dq(f)[1] == '"');
            assert(s[i] == s.subrange(i, e)[0] && s[i + 1] == s.subrange(i, e)[1]);
            assert(s[i] == '"' && s[i + 1] == '"');
            assert forall|j: int| 0 <= j < dq(f1).len() implies s.subrange(
                i + 2,
                i + 2 + dq(f1).len(),
            )[j] == dq(f1)[j] by {
                assert(s[i + 2 + j] == s.subrange(i, e)[j + 2]);
                assert(dq(f)[j + 2] == dq(f1)[j]);
            }
            assert(s.subrange(i + 2, i + 2 + dq(f1).len()) =~= dq(f1));
            lemma_parse_quoted_of_dq(f1, s, i + 2);
            assert(seq!['"'] + f1 =~= f);
        } else {
            assert(dq(f)[0] == f[0]);
            assert(s[i] == s.subrange(i, e)[0]);
            assert(s[i] == f[0]);
            assert forall|j: int| 0 <= j < dq(f1).len() implies s.subrange(
                i + 1,
                i + 1 + dq(f1).len(),
            )[j] == dq(f1)[j] by {
                assert(s[i + 1 + j] == s.subrange(i, e)[j + 1]);
                assert(dq(f)[j + 1] == dq(f1)[j]);
            }
            assert(s.subrange(i + 1, i + 1 + dq(f1).len()) =~= dq(f1));
            lemma_parse_quoted_of_dq(f1, s, i + 1);
            assert(seq![s[i]] + f1 =~= f);
        }
    }
}

/// Anywhere an encoded field stands followed by a separator, parsing
/// reads back exactly the field.
proof fn lemma_parse_field_of_enc(f: Seq<char>, s: Seq<char>, i: int)
    requires
        0 <= i,
        i + enc_field(f).len() <= s.len(),
        s.subrange(i, i + enc_field(f).len()) == enc_field(f),
        i + enc_field(f).len() == s.len() || s[i + enc_field(f).len()] == ',' || s[i
            + enc_field(f).len()] == '\n',
    ensures
        parse_field_at(s, i) == Some((f, i + enc_field(f).len())),
{
    let e = i + enc_field(f).len();
    if needs_quote(f) {
        assert(enc_field(f) == seq!['"'] + dq(f) + seq!['"']);
        assert(s[i] == s.subrange(i, e)[0]);
        assert(s[i] == '"');
        assert(s[e - 1] == s.subrange(i, e)[e - 1 - i]);
        assert(s[e - 1] == '"');
        assert forall|j: int| 0 <= j < dq(f).len() implies s.subrange(
            i + 1,
            i + 1 + dq(f).len(),
        )[j] == dq(f)[j] by {
            assert(s[i + 1 + j] == s.subrange(i, e)[j + 1]);
            assert(enc_field(f)[j + 1] == dq(f)[j]);
        }
        assert(s.subrange(i + 1, i + 1 + dq(f).len()) =~= dq(f));
        lemma_parse_quoted_of_dq(f, s, i + 1);
    } else {
        if i < s.len() {
            if f.len() > 0 {
                assert(f[0] == s.subrange(i, e)[0]);
                assert(s[i] == f[0]);
                assert(!is_special(f[0])) by {
                    if is_special(f[0]) {
                        assert(needs_quote(f));
                    }
                }
                assert(s[i] != '"');
            } else {
                assert(s[i] == ',' || s[i] == '\n');
            }
        }
        lemma_parse_unquoted_of_plain(f, s, i);
    }
}

/// Peels one comma-terminated encoded field off the front of the
/// remaining input.
proof fn lemma_peel_field(f: Seq<char>, rest: Seq<char>, s: Seq<char>, i: int)
    requires
        0 <= i <= s.len(),
        s.subrange(i, s.len() as int) == enc_field(f) + (seq![','] + rest),
    ensures
        parse_field_at(s, i) == Some((f, i + enc_field(f).len())),
        s[i + enc_field(f).len()] == ',',
        i + enc_field(f).len() + 1 <= s.len(),
        s.subrange(i + enc_field(f).len() + 1, s.len() as int) == rest,
{
    let suf = s.subrange(i, s.len() as int);
    let flen = enc_field(f).len() as int;
    assert(suf.len() == flen + 1 + rest.len());
    assert forall|j: int| 0 <= j < flen implies s.subrange(i, i + flen)[j] == enc_field(f)[j] by {
        assert(s[i + j] == suf[j]);
        assert(suf[j] == enc_field(f)[j]);
    }
    assert(s.subrange(i, i + flen) =~= enc_field(f));
    assert(s[i + flen] == suf[flen]);
    assert(suf[flen] == (seq![','] + rest)[0]);
    lemma_parse_field_of_enc(f, s, i);
    assert forall|j: int| 0 <= j < rest.len() implies s.subrange(
        i + flen + 1,
        s.len() as int,
    )[j] == rest[j] by {
        assert(s[i + flen + 1 + j] == suf[flen + 1 + j]);
        assert(suf[flen + 1 + j] == (seq![','] + rest)[1 + j]);
    }
    assert(s.subrange(i + flen + 1, s.len() as int) =~= rest);
}

/// Peels the last, newline-terminated field.
proof fn lemma_peel_last_field(f: Seq<char>, s: Seq<char>, i: int)
    requires
        0 <= i <= s.len(),
        s.subrange(i, s.len() as int) == enc_field(f) + seq!['\n'],
    ensures
        parse_field_at(s, i) == Some((f, i + enc_field(f).len())),
        s[i + enc_field(f).len()] == '\n',
        i + enc_field(f).len() + 1 == s.len(),
{
    let suf = s.subrange(i, s.len() as int);
    let flen = enc_field(f).len() as int;
    assert(suf.len() == flen + 1);
    assert forall|j: int| 0 <= j < flen implies s.subrange(i, i + flen)[j] == enc_field(f)[j] by {
        assert(s[i + j] == suf[j]);
        assert(suf[j] == enc_field(f)[j]);
    }
    assert(s.subrange(i, i + flen) =~= enc_field(f));
    assert(s[i + flen] == suf[flen]);
    assert(suf[flen] == (enc_field(f) + seq!['\n'])[flen]);
    lemma_parse_field_of_enc(f, s, i);
}

/// Peels a newline-terminated encoded field off the front of the
/// remaining input, whatever follows the newline.
proof fn lemma_peel_field_nl(f: Seq<char>, rest: Seq<char>, s: Seq<char>, i: int)
    requires
        0 <= i <= s.len(),
        s.subrange(i, s.len() as int) == enc_field(f) + (seq!['\n'] + rest),
    ensures
        parse_field_at(s, i) == Some((f, i + enc_field(f).len())),
        s[i + enc_field(f).len()] == '\n',
        i + enc_field(f).len() + 1 <= s.len(),
        s.subrange(i + enc_field(f).len() + 1, s.len() as int) == rest,
{
    let suf = s.subrange(i, s.len() as int);
    let flen = enc_field(f).len() as int;
    assert(suf.len() == flen + 1 + rest.len());
    assert forall|j: int| 0 <= j < flen implies s.subrange(i, i + flen)[j] == enc_field(f)[j] by {
        assert(s[i + j] == suf[j]);
        assert(suf[j] == enc_field(f)[j]);
    }
    assert(s.subrange(i, i + flen) =~= enc_field(f));
    assert(s[i + flen] == suf[flen]);
    assert(suf[flen] == (seq!['\n'] + rest)[0]);
    lemma_parse_field_of_enc(f, s, i);
    assert forall|j: int| 0 <= j < rest.len() implies s.subrange(
        i + flen + 1,
        s.len() as int,
    )[j] == rest[j] by {
        assert(s[i + flen + 1 + j] == suf[flen + 1 + j]);
        assert(suf[flen + 1 + j] == (seq!['\n'] + rest)[1 + j]);
    }
    assert(s.subrange(i + flen + 1, s.len() as int) =~= rest);
}

/// Wherever a record's row stands, it parses back into exactly its
/// seven wire fields, the parse stopping just past the row's newline.
#[verifier::rlimit(100)]
proof fn lemma_row_parse_at(v: RecordView, rest: Seq<char>, s: Seq<char>, i: int)
    ensures
        0 <= i <= s.len() && s.subrange(i, s.len() as int) == enc_record(v) + rest
            ==> parse_record_at(s, i) == Some((record_fields(v), i + enc_record(v).len())) && i
            + enc_record(v).len() <= s.len() && s.subrange(
            i + enc_record(v).len(),
            s.len() as int,
        ) == rest,
{
    if 0 <= i <= s.len() && s.subrange(i, s.len() as int) == enc_record(v) + rest {
        let fs = record_fields(v);
        let t6 = enc_from_notes(v);
        let t5 = enc_from_duration(v);
        let t4 = enc_from_end(v);
        let t3 = enc_from_start(v);
        let t2 = enc_from_type(v);
        let t1 = enc_from_name(v);
        let o0 = i;
        assert(enc_record(v) + rest =~= enc_field(fs[0]) + (seq![','] + (t1 + rest)));
        lemma_peel_field(fs[0], t1 + rest, s, o0);
        let o1 = o0 + enc_field(fs[0]).len() + 1;
        assert(t1 + rest =~= enc_field(fs[1]) + (seq![','] + (t2 + rest)));
        lemma_peel_field(fs[1], t2 + rest, s, o1);
        let o2 = o1 + enc_field(fs[1]).len() + 1;
        assert(t2 + rest =~= enc_field(fs[2]) + (seq![','] + (t3 + rest)));
        lemma_peel_field(fs[2], t3 + rest, s, o2);
        let o3 = o2 + enc_field(fs[2]).len() + 1;
        assert(t3 + rest =~= enc_field(fs[3]) + (seq![','] + (t4 + rest)));
        lemma_peel_field(fs[3], t4 + rest, s, o3);
        let o4 = o3 + enc_field(fs[3]).len() + 1;
        assert(t4 + rest =~= enc_field(fs[4]) + (seq![','] + (t5 + rest)));
        lemma_peel_field(fs[4], t5 + rest, s, o4);
        let o5 = o4 + enc_field(fs[4]).len() + 1;
        assert(t5 + rest =~= enc_field(fs[5]) + (seq![','] + (t6 + rest)));
        lemma_peel_field(fs[5], t6 + rest, s, o5);
        let o6 = o5 + enc_field(fs[5]).len() + 1;
        assert(t6 + rest =~= enc_field(fs[6]) + (seq!['\n'] + rest));
        lemma_peel_field_nl(fs[6], rest, s, o6);
        assert(seq![fs[0], fs[1], fs[2], fs[3], fs[4], fs[5], fs[6]] =~= fs);
        assert(i + enc_record(v).len() == o6 + enc_field(fs[6]).len() + 1);
    }
}

/// A record's row alone parses back into exactly its seven wire fields.
proof fn lemma_row_fields_parse(v: RecordView)
    ensures
        parse_record_at(enc_record(v), 0) == Some(
            (record_fields(v), enc_record(v).len() as int),
        ),
{
    let s = enc_record(v);
    assert(s.subrange(0, s.len() as int) =~= s + Seq::<char>::empty());
    lemma_row_parse_at(v, Seq::empty(), s, 0);
}

/// A well-formed record's seven wire fields denote the record again.
#[verifier::rlimit(100)]
proof fn lemma_interpret_record_fields(v: RecordView)
    requires
        record_valid(v),
    ensures
        interpret_fields(record_fields(v)) == Some(v),
{
    let fs = record_fields(v);
    assert(fs[2] == v.pomodoro_type.label());
    assert(fs[3] == spec_fmt_rfc3339(v.start_time));
    assert(fs[4] == spec_fmt_rfc3339(v.end_time));
    assert(fs[5] == dec_digits(v.duration_minutes as int));
    assert(fs[6] == notes_str(v.notes));
    lemma_label_round_trip(v.pomodoro_type);
    lemma_rfc3339_round_trip(v.start_time);
    lemma_rfc3339_round_trip(v.end_time);
    lemma_dec_round_trip(v.duration_minutes as int);
    match v.notes {
        Some(n) => {
            assert(notes_str(v.notes) == n && n.len() > 0);
        },
        None => {
            assert(notes_str(v.notes).len() == 0);
        },
    }
    assert(interpret_fields(fs) == Some(v));
}

/// Every well-formed record survives the trip through its wire row:
/// decoding the encoding gives the record back (notes that were present
/// but empty come back as absent, which well-formedness rules out).
pub proof fn lemma_record_round_trip(v: RecordView)
    requires
        record_valid(v),
    ensures
        spec_decode_row(enc_record(v)) == Some(v),
{
    lemma_row_fields_parse(v);
    lemma_interpret_record_fields(v);
}

// ------------------------------------------------------------------
// Whole files.
// ------------------------------------------------------------------

/// The position just past the first newline (or the end of input):
/// where the data rows begin. The header line is read over, never
/// validated, as a reader of the format would.
pub open spec fn skip_line(s: Seq<char>, i: int) -> int
    decreases s.len() - i
        when 0 <= i <= s.len()
{
    if i >= s.len() {
        i
    } else if s[i] == '\n' {
        i + 1
    } else {
        skip_line(s, i + 1)
    }
}

/// What a sequence of rows denotes: all of them, in file order, or
/// nothing as soon as any single row fails — never a partial result.
pub open spec fn parse_rows(s: Seq<char>, i: int) -> Option<Seq<RecordView>>
    decreases s.len() - i
        when 0 <= i <= s.len()
{
    if i >= s.len() {
        Some(Seq::empty())
    } else {
        match parse_record_at(s, i) {
            None => None,
            Some((fields, n)) => if !(i < n <= s.len()) {
                None
            } else {
                match interpret_fields(fields) {
                    None => None,
                    Some(rv) => match parse_rows(s, n) {
                        None => None,
                        Some(rest) => Some(seq![rv] + rest),
                    },
                }
            },
        }
    }
}

/// What a whole store file denotes: its rows after the header line.
pub open spec fn spec_decode_file(s: Seq<char>) -> Option<Seq<RecordView>> {
    parse_rows(s, skip_line(s, 0))
}

/// Reads a whole store file in file order. One bad row fails the whole
/// call; nothing is skipped silently. Every decoded record is
/// well-formed.
pub fn decode_file(s: &str) -> (r: Result<Vec<Pomodoro>, StoreError>)
    requires
        s@.len() <= usize::MAX,
    ensures
        r is Ok <==> spec_decode_file(s@) is Some,
        r matches Ok(v) ==> Some(views(v@)) == spec_decode_file(s@) && forall|k: int|
            0 <= k < v@.len() ==> record_valid(#[trigger] v@[k]@),
        r matches Err(e) ==> e is DecodeError,
{
    let len = s.unicode_len();
    let mut i: usize = 0;
    while i < len && s.get_char(i) != '\n'
        invariant
            0 <= i <= len,
            len == s@.len(),
            skip_line(s@, 0) == skip_line(s@, i as int),
        decreases len - i,
    {
        i = i + 1;
    }
    if i < len {
        i = i + 1;
    }
    proof {
        assert(i as int == skip_line(s@, 0));
    }
    let ghost rows_start = i as int;
    let mut records: Vec<Pomodoro> = Vec::new();
    proof {
        if let Some(rest) = parse_rows(s@, rows_start) {
            assert(views(records@) + rest =~= rest);
        }
    }
    while i < len
        invariant
            0 <= i <= len,
            len == s@.len(),
            len <= usize::MAX,
            0 <= rows_start <= len,
            rows_start == skip_line(s@, 0),
            parse_rows(s@, rows_start) == (match parse_rows(s@, i as int) {
                Some(rest) => Some(views(records@) + rest),
                None => None::<Seq<RecordView>>,
            }),
            forall|k: int| 0 <= k < records@.len() ==> record_valid(#[trigger] records@[k]@),
        decreases len - i,
    {
        let (rf, n) = match parse_record(s, i) {
            Some(v) => v,
            None => {
                return Err(StoreError::DecodeError(String::from_str("Failed to read record: malformed row")));
            },
        };
        if n <= i {
            return Err(StoreError::DecodeError(String::from_str("Failed to read record: empty row")));
        }
        let ghost old_records = records@;
        let ghost old_i = i as int;
        let p = match interpret_row(rf) {
            Ok(p) => p,
            Err(e) => {
                return Err(e);
            },
        };
        records.push(p);
        proof {
            if let Some(rest) = parse_rows(s@, n as int) {
                assert(views(records@) =~= views(old_records).push(p@));
                assert(views(old_records) + (seq![p@] + rest) =~= views(records@) + rest);
            }
        }
        i = n;
    }
    proof {
        assert(parse_rows(s@, i as int) == Some(Seq::<RecordView>::empty()));
        assert(views(records@) + Seq::<RecordView>::empty() =~= views(records@));
    }
    Ok(records)
}

/// Rows concatenate row-wise.
proof fn lemma_enc_rows_append(a: Seq<RecordView>, b: Seq<RecordView>)
    ensures
        enc_rows(a + b) == enc_rows(a) + enc_rows(b),
    decreases b.len(),
{
    if b.len() == 0 {
        assert(a + b =~= a);
        assert(enc_rows(a) + enc_rows(b) =~= enc_rows(a));
    } else {
        assert((a + b).drop_last() =~= a + b.drop_last());
        assert((a + b).last() == b.last());
        lemma_enc_rows_append(a, b.drop_last());
        assert((enc_rows(a) + enc_rows(b.drop_last())) + enc_record(b.last()) =~= enc_rows(a) + (
        enc_rows(b.drop_last()) + enc_record(b.last())));
    }
}

/// A stretch of encoded rows parses back into exactly those records.
proof fn lemma_rows_parse(vs: Seq<RecordView>, s: Seq<char>, i: int)
    requires
        0 <= i <= s.len(),
        s.subrange(i, s.len() as int) == enc_rows(vs),
        forall|k: int| 0 <= k < vs.len() ==> record_valid(#[trigger] vs[k]),
    ensures
        parse_rows(s, i) == Some(vs),
    decreases vs.len(),
{
    if vs.len() == 0 {
        assert(enc_rows(vs).len() == 0);
        assert(i == s.len());
        assert(Some(Seq::<RecordView>::empty()) == Some(vs)) by {
            assert(Seq::<RecordView>::empty() =~= vs);
        }
    } else {
        let first = vs[0];
        let tail = vs.subrange(1, vs.len() as int);
        assert(vs =~= seq![first] + tail);
        lemma_enc_rows_append(seq![first], tail);
        assert(enc_rows(seq![first]) =~= enc_record(first)) by {
            assert(seq![first].drop_last() =~= Seq::<RecordView>::empty());
            assert(seq![first].last() == first);
            assert(enc_rows(Seq::<RecordView>::empty()) =~= Seq::<char>::empty());
            assert(enc_rows(seq![first]) == enc_rows(seq![first].drop_last()) + enc_record(
                seq![first].last(),
            ));
            assert(Seq::<char>::empty() + enc_record(first) =~= enc_record(first));
        }
        assert(s.subrange(i, s.len() as int) =~= enc_record(first) + enc_rows(tail));
        lemma_row_parse_at(first, enc_rows(tail), s, i);
        let next = i + enc_record(first).len();
        assert(enc_record(first).len() >= 1);
        lemma_interpret_record_fields(first);
        assert(forall|k: int| 0 <= k < tail.len() ==> tail[k] == vs[k + 1]);
        lemma_rows_parse(tail, s, next);
        assert(parse_rows(s, i) == Some(seq![first] + tail));
    }
}

/// Reading over the header line lands exactly at its end.
#[verifier::rlimit(100)]
proof fn lemma_skip_header(s: Seq<char>)
    requires
        s.len() >= 56,
        s.subrange(0, 56) == header_text(),
    ensures
        skip_line(s, 0) == 56,
{
    reveal_strlit("id,name,type,start_time,end_time,duration_minutes,notes\n");
    assert(header_text().len() == 56);
    assert(s.subrange(0, 56)[0] == header_text()[0]);
    assert(s[0] == s.subrange(0, 56)[0]);
    assert(s[0] != '\n');
    assert(skip_line(s, 0) == skip_line(s, 1));
    assert(s.subrange(0, 56)[1] == header_text()[1]);
    assert(s[1] == s.subrange(0, 56)[1]);
    assert(s[1] != '\n');
    assert(skip_line(s, 1) == skip_line(s, 2));
    assert(s.subrange(0, 56)[2] == header_text()[2]);
    assert(s[2] == s.subrange(0, 56)[2]);
    assert(s[2] != '\n');
    assert(skip_line(s, 2) == skip_line(s, 3));
    assert(s.subrange(0, 56)[3] == header_text()[3]);
    assert(s[3] == s.subrange(0, 56)[3]);
    assert(s[3] != '\n');
    assert(skip_line(s, 3) == skip_line(s, 4));
    assert(s.subrange(0, 56)[4] == header_text()[4]);
    assert(s[4] == s.subrange(0, 56)[4]);
    assert(s[4] != '\n');
    assert(skip_line(s, 4) == skip_line(s, 5));
    assert(s.subrange(0, 56)[5] == header_text()[5]);
    assert(s[5] == s.subrange(0, 56)[5]);
    assert(s[5] != '\n');
    assert(skip_line(s, 5) == skip_line(s, 6));
    assert(s.subrange(0, 56)[6] == header_text()[6]);
    assert(s[6] == s.subrange(0, 56)[6]);
    assert(s[6] != '\n');
    assert(skip_line(s, 6) == skip_line(s, 7));
    assert(s.subrange(0, 56)[7] == header_text()[7]);
    assert(s[7] == s.subrange(0, 56)[7]);
    assert(s[7] != '\n');
    assert(skip_line(s, 7) == skip_line(s, 8));
    assert(s.subrange(0, 56)[8] == header_text()[8]);
    assert(s[8] == s.subrange(0, 56)[8]);
    assert(s[8] != '\n');
    assert(skip_line(s, 8) == skip_line(s, 9));
    assert(s.subrange(0, 56)[9] == header_text()[9]);
    assert(s[9] == s.subrange(0, 56)[9]);
    assert(s[9] != '\n');
    assert(skip_line(s, 9) == skip_line(s, 10));
    assert(s.subrange(0, 56)[10] == header_text()[10]);
    assert(s[10] == s.subrange(0, 56)[10]);
    assert(s[10] != '\n');
    assert(skip_line(s, 10) == skip_line(s, 11));
    assert(s.subrange(0, 56)[11] == header_text()[11]);
    assert(s[11] == s.subrange(0, 56)[11]);
    assert(s[11] != '\n');
    assert(skip_line(s, 11) == skip_line(s, 12));
    assert(s.subrange(0, 56)[12] == header_text()[12]);
    assert(s[12] == s.subrange(0, 56)[12]);
    assert(s[12] != '\n');
    assert(skip_line(s, 12) == skip_line(s, 13));
    assert(s.subrange(0, 56)[13] == header_text()[13]);
    assert(s[13] == s.subrange(0, 56)[13]);
    assert(s[13] != '\n');
    assert(skip_line(s, 13) == skip_line(s, 14));
    assert(s.subrange(0, 56)[14] == header_text()[14]);
    assert(s[14] == s.subrange(0, 56)[14]);
    assert(s[14] != '\n');
    assert(skip_line(s, 14) == skip_line(s, 15));
    assert(s.subrange(0, 56)[15] == header_text()[15]);
    assert(s[15] == s.subrange(0, 56)[15]);
    assert(s[15] != '\n');
    assert(skip_line(s, 15) == skip_line(s, 16));
    assert(s.subrange(0, 56)[16] == header_text()[16]);
    assert(s[16] == s.subrange(0, 56)[16]);
    assert(s[16] != '\n');
    assert(skip_line(s, 16) == skip_line(s, 17));
    assert(s.subrange(0, 56)[17] == header_text()[17]);
    assert(s[17] == s.subrange(0, 56)[17]);
    assert(s[17] != '\n');
    assert(skip_line(s, 17) == skip_line(s, 18));
    assert(s.subrange(0, 56)[18] == header_text()[18]);
    assert(s[18] == s.subrange(0, 56)[18]);
    assert(s[18] != '\n');
    assert(skip_line(s, 18) == skip_line(s, 19));
    assert(s.subrange(0, 56)[19] == header_text()[19]);
    assert(s[19] == s.subrange(0, 56)[19]);
    assert(s[19] != '\n');
    assert(skip_line(s, 19) == skip_line(s, 20));
    assert(s.subrange(0, 56)[20] == header_text()[20]);
    assert(s[20] == s.subrange(0, 56)[20]);
    assert(s[20] != '\n');
    assert(skip_line(s, 20) == skip_line(s, 21));
    assert(s.subrange(0, 56)[21] == header_text()[21]);
    assert(s[21] == s.subrange(0, 56)[21]);
    assert(s[21] != '\n');
    assert(skip_line(s, 21) == skip_line(s, 22));
    assert(s.subrange(0, 56)[22] == header_text()[22]);
    assert(s[22] == s.subrange(0, 56)[22]);
    assert(s[22] != '\n');
    assert(skip_line(s, 22) == skip_line(s, 23));
    assert(s.subrange(0, 56)[23] == header_text()[23]);
    assert(s[23] == s.subrange(0, 56)[23]);
    assert(s[23] != '\n');
    assert(skip_line(s, 23) == skip_line(s, 24));
    assert(s.subrange(0, 56)[24] == header_text()[24]);
    assert(s[24] == s.subrange(0, 56)[24]);
    assert(s[24] != '\n');
    assert(skip_line(s, 24) == skip_line(s, 25));
    assert(s.subrange(0, 56)[25] == header_text()[25]);
    assert(s[25] == s.subrange(0, 56)[25]);
    assert(s[25] != '\n');
    assert(skip_line(s, 25) == skip_line(s, 26));
    assert(s.subrange(0, 56)[26] == header_text()[26]);
    assert(s[26] == s.subrange(0, 56)[26]);
    assert(s[26] != '\n');
    assert(skip_line(s, 26) == skip_line(s, 27));
    assert(s.subrange(0, 56)[27] == header_text()[27]);
    assert(s[27] == s.subrange(0, 56)[27]);
    assert(s[27] != '\n');
    assert(skip_line(s, 27) == skip_line(s, 28));
    assert(s.subrange(0, 56)[28] == header_text()[28]);
    assert(s[28] == s.subrange(0, 56)[28]);
    assert(s[28] != '\n');
    assert(skip_line(s, 28) == skip_line(s, 29));
    assert(s.subrange(0, 56)[29] == header_text()[29]);
    assert(s[29] == s.subrange(0, 56)[29]);
    assert(s[29] != '\n');
    assert(skip_line(s, 29) == skip_line(s, 30));
    assert(s.subrange(0, 56)[30] == header_text()[30]);
    assert(s[30] == s.subrange(0, 56)[30]);
    assert(s[30] != '\n');
    assert(skip_line(s, 30) == skip_line(s, 31));
    assert(s.subrange(0, 56)[31] == header_text()[31]);
    assert(s[31] == s.subrange(0, 56)[31]);
    assert(s[31] != '\n');
    assert(skip_line(s, 31) == skip_line(s, 32));
    assert(s.subrange(0, 56)[32] == header_text()[32]);
    assert(s[32] == s.subrange(0, 56)[32]);
    assert(s[32] != '\n');
    assert(skip_line(s, 32) == skip_line(s, 33));
    assert(s.subrange(0, 56)[33] == header_text()[33]);
    assert(s[33] == s.subrange(0, 56)[33]);
    assert(s[33] != '\n');
    assert(skip_line(s, 33) == skip_line(s, 34));
    assert(s.subrange(0, 56)[34] == header_text()[34]);
    assert(s[34] == s.subrange(0, 56)[34]);
    assert(s[34] != '\n');
    assert(skip_line(s, 34) == skip_line(s, 35));
    assert(s.subrange(0, 56)[35] == header_text()[35]);
    assert(s[35] == s.subrange(0, 56)[35]);
    assert(s[35] != '\n');
    assert(skip_line(s, 35) == skip_line(s, 36));
    assert(s.subrange(0, 56)[36] == header_text()[36]);
    assert(s[36] == s.subrange(0, 56)[36]);
    assert(s[36] != '\n');
    assert(skip_line(s, 36) == skip_line(s, 37));
    assert(s.subrange(0, 56)[37] == header_text()[37]);
    assert(s[37] == s.subrange(0, 56)[37]);
    assert(s[37] != '\n');
    assert(skip_line(s, 37) == skip_line(s, 38));
    assert(s.subrange(0, 56)[38] == header_text()[38]);
    assert(s[38] == s.subrange(0, 56)[38]);
    assert(s[38] != '\n');
    assert(skip_line(s, 38) == skip_line(s, 39));
    assert(s.subrange(0, 56)[39] == header_text()[39]);
    assert(s[39] == s.subrange(0, 56)[39]);
    assert(s[39] != '\n');
    assert(skip_line(s, 39) == skip_line(s, 40));
    assert(s.subrange(0, 56)[40] == header_text()[40]);
    assert(s[40] == s.subrange(0, 56)[40]);
    assert(s[40] != '\n');
    assert(skip_line(s, 40) == skip_line(s, 41));
    assert(s.subrange(0, 56)[41] == header_text()[41]);
    assert(s[41] == s.subrange(0, 56)[41]);
    assert(s[41] != '\n');
    assert(skip_line(s, 41) == skip_line(s, 42));
    assert(s.subrange(0, 56)[42] == header_text()[42]);
    assert(s[42] == s.subrange(0, 56)[42]);
    assert(s[42] != '\n');
    assert(skip_line(s, 42) == skip_line(s, 43));
    assert(s.subrange(0, 56)[43] == header_text()[43]);
    assert(s[43] == s.subrange(0, 56)[43]);
    assert(s[43] != '\n');
    assert(skip_line(s, 43) == skip_line(s, 44));
    assert(s.subrange(0, 56)[44] == header_text()[44]);
    assert(s[44] == s.subrange(0, 56)[44]);
    assert(s[44] != '\n');
    assert(skip_line(s, 44) == skip_line(s, 45));
    assert(s.subrange(0, 56)[45] == header_text()[45]);
    assert(s[45] == s.subrange(0, 56)[45]);
    assert(s[45] != '\n');
    assert(skip_line(s, 45) == skip_line(s, 46));
    assert(s.subrange(0, 56)[46] == header_text()[46]);
    assert(s[46] == s.subrange(0, 56)[46]);
    assert(s[46] != '\n');
    assert(skip_line(s, 46) == skip_line(s, 47));
    assert(s.subrange(0, 56)[47] == header_text()[47]);
    assert(s[47] == s.subrange(0, 56)[47]);
    assert(s[47] != '\n');
    assert(skip_line(s, 47) == skip_line(s, 48));
    assert(s.subrange(0, 56)[48] == header_text()[48]);
    assert(s[48] == s.subrange(0, 56)[48]);
    assert(s[48] != '\n');
    assert(skip_line(s, 48) == skip_line(s, 49));
    assert(s.subrange(0, 56)[49] == header_text()[49]);
    assert(s[49] == s.subrange(0, 56)[49]);
    assert(s[49] != '\n');
    assert(skip_line(s, 49) == skip_line(s, 50));
    assert(s.subrange(0, 56)[50] == header_text()[50]);
    assert(s[50] == s.subrange(0, 56)[50]);
    assert(s[50] != '\n');
    assert(skip_line(s, 50) == skip_line(s, 51));
    assert(s.subrange(0, 56)[51] == header_text()[51]);
    assert(s[51] == s.subrange(0, 56)[51]);
    assert(s[51] != '\n');
    assert(skip_line(s, 51) == skip_line(s, 52));
    assert(s.subrange(0, 56)[52] == header_text()[52]);
    assert(s[52] == s.subrange(0, 56)[52]);
    assert(s[52] != '\n');
    assert(skip_line(s, 52) == skip_line(s, 53));
    assert(s.subrange(0, 56)[53] == header_text()[53]);
    assert(s[53] == s.subrange(0, 56)[53]);
    assert(s[53] != '\n');
    assert(skip_line(s, 53) == skip_line(s, 54));
    assert(s.subrange(0, 56)[54] == header_text()[54]);
    assert(s[54] == s.subrange(0, 56)[54]);
    assert(s[54] != '\n');
    assert(skip_line(s, 54) == skip_line(s, 55));
    assert(s.subrange(0, 56)[55] == header_text()[55]);
    assert(s[55] == s.subrange(0, 56)[55]);
    assert(s[55] == '\n');
    assert(skip_line(s, 55) == 56);
}

/// A whole store file written from well-formed records reads back to
/// exactly those records, in order: the write/reload cycle is lossless.
pub proof fn lemma_file_round_trip(vs: Seq<RecordView>)
    requires
        forall|k: int| 0 <= k < vs.len() ==> record_valid(#[trigger] vs[k]),
    ensures
        spec_decode_file(enc_file(vs)) == Some(vs),
{
    let s = enc_file(vs);
    reveal_strlit("id,name,type,start_time,end_time,duration_minutes,notes\n");
    assert(header_text().len() == 56);
    assert(s.subrange(0, 56) =~= header_text());
    lemma_skip_header(s);
    assert(s.subrange(56, s.len() as int) =~= enc_rows(vs));
    lemma_rows_parse(vs, s, 56);
}

} // verus!
