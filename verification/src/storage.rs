//! The journal and snapshot formats, and journal replay.
//!
//! A journal entry is one line of text: a discriminator (`i` for insert, `d`
//! for delete), comma-separated fields, and a closing `;`. An insert carries
//! the write timestamp and the full record; a delete carries only the key.
//! The record's name is escaped (so a line never contains a line break) and
//! length-prefixed, and every line ends in `;`, so a partially written line
//! is never mistaken for a complete one.
//!
//! A snapshot is the whole live record collection, one `r,<record>` line per
//! row. Reading and writing the files themselves is left to the caller; this
//! module only defines what the bytes mean.

use vstd::prelude::*;
use crate::model::{Row, RowV};
use crate::text::{
    all_digits, chars_to_string, esc, is_digit, lemma_esc_no_newline, lemma_token_of_dec,
    lemma_token_of_dec_i64, lemma_unesc_esc, parse_i64_token, parse_u64_token, push_dec,
    push_dec_i64, push_escaped, spec_dec, spec_dec_i64, str_to_chars, token_i64, token_u64,
    unesc, unescape_range,
};

verus! {

/// The mathematical value of a [`LogEntry`].
pub enum LogEntryV {
    Insert { row: RowV, timestamp: i64 },
    Delete { id: u32 },
}

/// A single journal entry: a record inserted at some wall-clock time, or a
/// key deleted.
pub enum LogEntry {
    /// A record was inserted.
    Insert {
        /// The inserted record.
        row: Row,
        /// Seconds since the Unix epoch when the insert was journalled.
        timestamp: i64,
    },
    /// The record with this key was deleted.
    Delete {
        /// Key of the deleted record.
        id: u32,
    },
}

impl View for LogEntry {
    type V = LogEntryV;

    open spec fn view(&self) -> LogEntryV {
        match self {
            LogEntry::Insert { row, timestamp } => LogEntryV::Insert {
                row: row@,
                timestamp: *timestamp,
            },
            LogEntry::Delete { id } => LogEntryV::Delete { id: *id },
        }
    }
}

/// The views of a sequence of rows.
pub open spec fn rows_view(rows: Seq<Row>) -> Seq<RowV> {
    rows.map_values(|r: Row| r@)
}

/// The views of a sequence of lines.
pub open spec fn lines_view(lines: Seq<String>) -> Seq<Seq<char>> {
    lines.map_values(|l: String| l@)
}

// ---------------------------------------------------------------------------
// Encoding
// ---------------------------------------------------------------------------

/// The text of a record: key, age, escaped-name length, escaped name.
pub open spec fn spec_encode_record(r: RowV) -> Seq<char> {
    spec_dec(r.id as nat) + seq![','] + spec_dec(r.age as nat) + seq![','] + spec_dec(
        esc(r.name).len(),
    ) + seq![','] + esc(r.name)
}

/// The journal line of an insert.
pub open spec fn spec_encode_insert(r: RowV, timestamp: i64) -> Seq<char> {
    seq!['i', ','] + spec_dec_i64(timestamp as int) + seq![','] + spec_encode_record(r)
        + seq![';']
}

/// The journal line of a delete.
pub open spec fn spec_encode_delete(id: u32) -> Seq<char> {
    seq!['d', ','] + spec_dec(id as nat) + seq![';']
}

// ---------------------------------------------------------------------------
// Decoding
// ---------------------------------------------------------------------------

/// Index of the first occurrence of `c` in `s`.
pub open spec fn find_char(s: Seq<char>, c: char) -> Option<int>
    decreases s.len(),
{
    if s.len() == 0 {
        None
    } else if s[0] == c {
        Some(0)
    } else {
        match find_char(s.skip(1), c) {
            Some(i) => Some(i + 1),
            None => None,
        }
    }
}

/// Splits `s` at its first comma into the token before and the rest after.
pub open spec fn split_comma(s: Seq<char>) -> Option<(Seq<char>, Seq<char>)> {
    match find_char(s, ',') {
        Some(i) => Some((s.take(i), s.skip(i + 1))),
        None => None,
    }
}

/// The meaning of a token as a key.
pub open spec fn token_u32(t: Seq<char>) -> Option<u32> {
    match token_u64(t) {
        Some(v) => if v <= u32::MAX as u64 {
            Some(v as u32)
        } else {
            None
        },
        None => None,
    }
}

/// The meaning of a token as an age.
pub open spec fn token_u8(t: Seq<char>) -> Option<u8> {
    match token_u64(t) {
        Some(v) => if v <= u8::MAX as u64 {
            Some(v as u8)
        } else {
            None
        },
        None => None,
    }
}

/// The record a piece of text denotes, if well-formed: key, age, then the
/// name preceded by the exact character count of its escaped form.
pub open spec fn decode_record(s: Seq<char>) -> Option<RowV> {
    match split_comma(s) {
        None => None,
        Some((t_id, s1)) => match split_comma(s1) {
            None => None,
            Some((t_age, s2)) => match split_comma(s2) {
                None => None,
                Some((t_len, name_esc)) => match (token_u32(t_id), token_u8(t_age), token_u64(
                    t_len,
                )) {
                    (Some(id), Some(age), Some(len)) => if name_esc.len() == len {
                        match unesc(name_esc) {
                            Some(name) => Some(RowV { id, name, age }),
                            None => None,
                        }
                    } else {
                        None
                    },
                    _ => None,
                },
            },
        },
    }
}

/// The journal entry a line denotes: `None` for anything malformed,
/// truncated, or trailing-garbage-carrying.
pub open spec fn decode_line(s: Seq<char>) -> Option<LogEntryV> {
    if s.len() >= 1 && s.last() == ';' {
        let body = s.drop_last();
        if body.len() >= 2 && body[0] == 'i' && body[1] == ',' {
            match split_comma(body.skip(2)) {
                Some((t_ts, rest)) => match (token_i64(t_ts), decode_record(rest)) {
                    (Some(timestamp), Some(row)) => Some(LogEntryV::Insert { row, timestamp }),
                    _ => None,
                },
                None => None,
            }
        } else if body.len() >= 2 && body[0] == 'd' && body[1] == ',' {
            match token_u32(body.skip(2)) {
                Some(id) => Some(LogEntryV::Delete { id }),
                None => None,
            }
        } else {
            None
        }
    } else {
        None
    }
}

// ---------------------------------------------------------------------------
// Round trip
// ---------------------------------------------------------------------------

/// In `a + [c] + b` with no `c` in `a`, the first `c` is the middle one.
proof fn lemma_find_boundary(a: Seq<char>, c: char, b: Seq<char>)
    requires
        forall|i: int| 0 <= i < a.len() ==> a[i] != c,
    ensures
        find_char(a + seq![c] + b, c) == Some(a.len() as int),
    decreases a.len(),
{
    let s = a + seq![c] + b;
    if a.len() == 0 {
        assert(s[0] == c);
    } else {
        assert(s[0] == a[0]);
        assert(s[0] != c);
        lemma_find_boundary(a.skip(1), c, b);
        assert(s.skip(1) =~= a.skip(1) + seq![c] + b);
    }
}

/// Digit strings contain no comma, semicolon or line break.
proof fn lemma_digits_plain(t: Seq<char>)
    requires
        all_digits(t),
    ensures
        forall|i: int| 0 <= i < t.len() ==> t[i] != ',',
        forall|i: int| 0 <= i < t.len() ==> t[i] != ';',
        forall|i: int| 0 <= i < t.len() ==> t[i] != '\n' && t[i] != '\r',
{
    assert forall|i: int| 0 <= i < t.len() implies t[i] != ',' && t[i] != ';' && t[i] != '\n'
        && t[i] != '\r' by {
        assert(is_digit(t[i]));
    }
}

/// A signed numeral contains no comma and no semicolon.
proof fn lemma_dec_i64_plain(t: int)
    ensures
        forall|i: int| 0 <= i < spec_dec_i64(t).len() ==> #[trigger] spec_dec_i64(t)[i] != ','
            && spec_dec_i64(t)[i] != ';',
{
    let s = spec_dec_i64(t);
    if t < 0 {
        crate::text::lemma_spec_dec_props((-t) as nat);
        lemma_digits_plain(spec_dec((-t) as nat));
        assert forall|i: int| 0 <= i < s.len() implies #[trigger] s[i] != ',' && s[i] != ';' by {
            if i >= 1 {
                assert(s[i] == spec_dec((-t) as nat)[i - 1]);
            }
        }
    } else {
        crate::text::lemma_spec_dec_props(t as nat);
        lemma_digits_plain(spec_dec(t as nat));
    }
}

/// Splitting `a + [','] + b` recovers `a` and `b` when `a` has no comma.
proof fn lemma_split_boundary(a: Seq<char>, b: Seq<char>)
    requires
        forall|i: int| 0 <= i < a.len() ==> a[i] != ',',
    ensures
        split_comma(a + seq![','] + b) == Some((a, b)),
{
    lemma_find_boundary(a, ',', b);
    let s = a + seq![','] + b;
    assert(s.take(a.len() as int) =~= a);
    assert(s.skip(a.len() as int + 1) =~= b);
}

/// Record encoding round-trips through record decoding. The length bound
/// holds of every name an executable row can carry.
pub proof fn lemma_decode_record_of_encode(r: RowV)
    requires
        esc(r.name).len() <= u64::MAX as nat,
    ensures
        decode_record(spec_encode_record(r)) == Some(r),
{
    let t_id = spec_dec(r.id as nat);
    let t_age = spec_dec(r.age as nat);
    let name_esc = esc(r.name);
    let t_len = spec_dec(name_esc.len());
    lemma_token_of_dec(r.id as u64);
    lemma_token_of_dec(r.age as u64);
    crate::text::lemma_spec_dec_props(r.id as nat);
    crate::text::lemma_spec_dec_props(r.age as nat);
    crate::text::lemma_spec_dec_props(name_esc.len());
    lemma_digits_plain(t_id);
    lemma_digits_plain(t_age);
    lemma_digits_plain(t_len);
    lemma_unesc_esc(r.name);

    let s = spec_encode_record(r);
    let s1 = t_age + seq![','] + (t_len + seq![','] + name_esc);
    let s2 = t_len + seq![','] + name_esc;
    assert(s =~= t_id + seq![','] + s1);
    lemma_split_boundary(t_id, s1);
    lemma_split_boundary(t_age, s2);
    lemma_split_boundary(t_len, name_esc);
    lemma_token_of_dec(name_esc.len() as u64);
    assert(token_u64(t_len) == Some(name_esc.len() as u64));
}

/// Insert lines round-trip through line decoding.
pub proof fn lemma_decode_of_encode_insert(r: RowV, timestamp: i64)
    requires
        esc(r.name).len() <= u64::MAX as nat,
    ensures
        decode_line(spec_encode_insert(r, timestamp)) == Some(
            LogEntryV::Insert { row: r, timestamp },
        ),
{
    let s = spec_encode_insert(r, timestamp);
    let body = s.drop_last();
    let t_ts = spec_dec_i64(timestamp as int);
    assert(s.last() == ';');
    assert(body =~= seq!['i', ','] + t_ts + seq![','] + spec_encode_record(r));
    assert(body[0] == 'i');
    assert(body[1] == ',');
    assert(body.skip(2) =~= t_ts + seq![','] + spec_encode_record(r));
    lemma_dec_i64_plain(timestamp as int);
    lemma_split_boundary(t_ts, spec_encode_record(r));
    lemma_token_of_dec_i64(timestamp);
    lemma_decode_record_of_encode(r);
}

/// `find_char` returns exactly the first occurrence.
proof fn lemma_find_char_at(s: Seq<char>, c: char, j: int)
    requires
        0 <= j < s.len(),
        s[j] == c,
        forall|k: int| 0 <= k < j ==> s[k] != c,
    ensures
        find_char(s, c) == Some(j),
    decreases j,
{
    if j > 0 {
        lemma_find_char_at(s.skip(1), c, j - 1);
    }
}

/// `find_char` finds nothing only when nothing is there.
proof fn lemma_find_char_none(s: Seq<char>, c: char)
    requires
        forall|k: int| 0 <= k < s.len() ==> s[k] != c,
    ensures
        find_char(s, c) is None,
    decreases s.len(),
{
    if s.len() > 0 {
        lemma_find_char_none(s.skip(1), c);
    }
}

// ---------------------------------------------------------------------------
// Executable encoding
// ---------------------------------------------------------------------------

/// Appends the text of a record to `out`.
fn push_record(row: &Row, out: &mut Vec<char>)
    ensures
        final(out)@ == old(out)@ + spec_encode_record(row@),
        esc(row@.name).len() <= u64::MAX as nat,
{
    push_dec(row.id as u64, out);
    out.push(',');
    push_dec(row.age as u64, out);
    out.push(',');
    let name_chars = str_to_chars(row.name.as_str());
    let mut esc_name: Vec<char> = Vec::new();
    push_escaped(&name_chars, &mut esc_name);
    push_dec(esc_name.len() as u64, out);
    out.push(',');
    out.append(&mut esc_name);
    assert(out@ =~= old(out)@ + spec_encode_record(row@));
}

/// Builds the journal line recording an insert.
pub fn encode_insert_line(row: &Row, timestamp: i64) -> (line: String)
    ensures
        line@ == spec_encode_insert(row@, timestamp),
        esc(row@.name).len() <= u64::MAX as nat,
{
    let mut out: Vec<char> = Vec::new();
    out.push('i');
    out.push(',');
    push_dec_i64(timestamp, &mut out);
    out.push(',');
    push_record(row, &mut out);
    out.push(';');
    assert(out@ =~= spec_encode_insert(row@, timestamp));
    chars_to_string(&out)
}

/// Builds the journal line recording a delete.
pub fn encode_delete_line(id: u32) -> (line: String)
    ensures
        line@ == spec_encode_delete(id),
{
    let mut out: Vec<char> = Vec::new();
    out.push('d');
    out.push(',');
    push_dec(id as u64, &mut out);
    out.push(';');
    assert(out@ =~= spec_encode_delete(id));
    chars_to_string(&out)
}

// ---------------------------------------------------------------------------
// Executable decoding
// ---------------------------------------------------------------------------

/// Finds the first `c` in `v[from..to]`.
pub fn find_in_range(v: &Vec<char>, from: usize, to: usize, c: char) -> (r: Option<usize>)
    requires
        from <= to <= v.len(),
    ensures
        match r {
            Some(j) => from <= j < to && v@[j as int] == c && find_char(
                v@.subrange(from as int, to as int),
                c,
            ) == Some(j - from),
            None => find_char(v@.subrange(from as int, to as int), c) is None,
        },
{
    let ghost s = v@.subrange(from as int, to as int);
    let mut i = from;
    while i < to
        invariant
            from <= i <= to <= v.len(),
            s == v@.subrange(from as int, to as int),
            forall|k: int| from <= k < i ==> v@[k] != c,
        decreases to - i,
    {
        if v[i] == c {
            proof {
                lemma_find_char_at(s, c, i - from);
            }
            return Some(i);
        }
        i = i + 1;
    }
    proof {
        lemma_find_char_none(s, c);
    }
    None
}

/// Reads the record written in `v[from..to]`.
fn decode_record_range(v: &Vec<char>, from: usize, to: usize) -> (r: Option<Row>)
    requires
        from <= to <= v.len(),
    ensures
        match r {
            Some(row) => decode_record(v@.subrange(from as int, to as int)) == Some(row@),
            None => decode_record(v@.subrange(from as int, to as int)) is None,
        },
{
    let ghost s = v@.subrange(from as int, to as int);
    let j1 = match find_in_range(v, from, to, ',') {
        Some(j) => j,
        None => {
            return None;
        },
    };
    proof {
        assert(s.take(j1 - from) =~= v@.subrange(from as int, j1 as int));
        assert(s.skip(j1 - from + 1) =~= v@.subrange(j1 as int + 1, to as int));
    }
    let ghost s1 = v@.subrange(j1 as int + 1, to as int);
    let j2 = match find_in_range(v, j1 + 1, to, ',') {
        Some(j) => j,
        None => {
            return None;
        },
    };
    proof {
        assert(s1.take(j2 - (j1 + 1)) =~= v@.subrange(j1 as int + 1, j2 as int));
        assert(s1.skip(j2 - (j1 + 1) + 1) =~= v@.subrange(j2 as int + 1, to as int));
    }
    let ghost s2 = v@.subrange(j2 as int + 1, to as int);
    let j3 = match find_in_range(v, j2 + 1, to, ',') {
        Some(j) => j,
        None => {
            return None;
        },
    };
    proof {
        assert(s2.take(j3 - (j2 + 1)) =~= v@.subrange(j2 as int + 1, j3 as int));
        assert(s2.skip(j3 - (j2 + 1) + 1) =~= v@.subrange(j3 as int + 1, to as int));
    }
    let id64 = match parse_u64_token(v, from, j1) {
        Some(x) => x,
        None => {
            return None;
        },
    };
    if id64 > u32::MAX as u64 {
        return None;
    }
    let age64 = match parse_u64_token(v, j1 + 1, j2) {
        Some(x) => x,
        None => {
            return None;
        },
    };
    if age64 > u8::MAX as u64 {
        return None;
    }
    let len64 = match parse_u64_token(v, j2 + 1, j3) {
        Some(x) => x,
        None => {
            return None;
        },
    };
    if (to - (j3 + 1)) as u64 != len64 {
        return None;
    }
    let name_chars = match unescape_range(v, j3 + 1, to) {
        Some(x) => x,
        None => {
            return None;
        },
    };
    let name = chars_to_string(&name_chars);
    let row = Row { id: id64 as u32, name, age: age64 as u8 };
    proof {
        assert(decode_record(s) == Some(row@));
    }
    Some(row)
}

/// Reads one journal line; `None` for anything [`decode_line`] rejects.
pub fn decode_entry(line: &str) -> (r: Option<LogEntry>)
    ensures
        match r {
            Some(e) => decode_line(line@) == Some(e@),
            None => decode_line(line@) is None,
        },
{
    let v = str_to_chars(line);
    let n = v.len();
    if n < 3 {
        return None;
    }
    if v[n - 1] != ';' {
        assert(v@.last() != ';');
        return None;
    }
    let ghost body = v@.drop_last();
    proof {
        assert(body.len() == n - 1);
        assert(body[0] == v@[0]);
        if n >= 3 {
            assert(body[1] == v@[1]);
        }
    }
    let c0 = v[0];
    let c1 = v[1];
    if c0 == 'i' && c1 == ',' {
        proof {
            assert(body.skip(2) =~= v@.subrange(2, n - 1));
        }
        let j = match find_in_range(&v, 2, n - 1, ',') {
            Some(j) => j,
            None => {
                return None;
            },
        };
        proof {
            assert(body.skip(2).take(j - 2) =~= v@.subrange(2, j as int));
            assert(body.skip(2).skip(j - 2 + 1) =~= v@.subrange(j as int + 1, n - 1));
        }
        let ts = match parse_i64_token(&v, 2, j) {
            Some(t) => t,
            None => {
                return None;
            },
        };
        match decode_record_range(&v, j + 1, n - 1) {
            Some(row) => Some(LogEntry::Insert { row, timestamp: ts }),
            None => None,
        }
    } else if c0 == 'd' && c1 == ',' {
        proof {
            assert(body.skip(2) =~= v@.subrange(2, n - 1));
        }
        match parse_u64_token(&v, 2, n - 1) {
            Some(x) => if x <= u32::MAX as u64 {
                Some(LogEntry::Delete { id: x as u32 })
            } else {
                None
            },
            None => None,
        }
    } else {
        None
    }
}

// ---------------------------------------------------------------------------
// Replay
// ---------------------------------------------------------------------------

/// All rows whose key is not `id`, in order.
pub open spec fn remove_all_id(rows: Seq<RowV>, id: u32) -> Seq<RowV>
    decreases rows.len(),
{
    if rows.len() == 0 {
        Seq::empty()
    } else {
        let prev = remove_all_id(rows.drop_last(), id);
        if rows.last().id == id {
            prev
        } else {
            prev.push(rows.last())
        }
    }
}

/// The effect of one journal entry on the live record collection.
pub open spec fn apply_entry(rows: Seq<RowV>, e: LogEntryV) -> Seq<RowV> {
    match e {
        LogEntryV::Insert { row, .. } => rows.push(row),
        LogEntryV::Delete { id } => remove_all_id(rows, id),
    }
}

/// Folds a journal over the empty state: well-formed lines are applied in
/// order, anything undecodable is skipped.
pub open spec fn replay_lines(lines: Seq<Seq<char>>) -> Seq<RowV>
    decreases lines.len(),
{
    if lines.len() == 0 {
        Seq::empty()
    } else {
        let prev = replay_lines(lines.drop_last());
        match decode_line(lines.last()) {
            Some(e) => apply_entry(prev, e),
            None => prev,
        }
    }
}

/// Removing an absent key changes nothing.
pub proof fn lemma_remove_all_absent(rows: Seq<RowV>, id: u32)
    requires
        forall|k: int| 0 <= k < rows.len() ==> rows[k].id != id,
    ensures
        remove_all_id(rows, id) == rows,
    decreases rows.len(),
{
    if rows.len() > 0 {
        assert forall|k: int| 0 <= k < rows.drop_last().len() implies rows.drop_last()[k].id
            != id by {
            assert(rows.drop_last()[k] == rows[k]);
        }
        lemma_remove_all_absent(rows.drop_last(), id);
        assert(rows.drop_last().push(rows.last()) =~= rows);
    }
}

/// When a key occurs exactly once, removing all its rows is removing that
/// one row.
pub proof fn lemma_remove_all_single(rows: Seq<RowV>, id: u32, p: int)
    requires
        0 <= p < rows.len(),
        rows[p].id == id,
        forall|k: int| 0 <= k < rows.len() && k != p ==> rows[k].id != id,
    ensures
        remove_all_id(rows, id) == rows.remove(p),
    decreases rows.len(),
{
    let dl = rows.drop_last();
    if p == rows.len() - 1 {
        assert forall|k: int| 0 <= k < dl.len() implies dl[k].id != id by {
            assert(dl[k] == rows[k]);
        }
        lemma_remove_all_absent(dl, id);
        assert(rows.remove(p) =~= dl);
    } else {
        assert(rows.last().id != id);
        assert(dl[p] == rows[p]);
        assert forall|k: int| 0 <= k < dl.len() && k != p implies dl[k].id != id by {
            assert(dl[k] == rows[k]);
        }
        lemma_remove_all_single(dl, id, p);
        assert(dl.remove(p).push(rows.last()) =~= rows.remove(p));
    }
}

/// A strict prefix of a delete line - a write torn anywhere - never
/// decodes: the closing `;` is missing, and nothing earlier in the line can
/// stand in for it.
pub proof fn lemma_torn_prefix_delete(id: u32, k: int)
    requires
        0 <= k < spec_encode_delete(id).len(),
    ensures
        decode_line(spec_encode_delete(id).take(k)) is None,
{
    let s = spec_encode_delete(id);
    let a = spec_dec(id as nat);
    crate::text::lemma_spec_dec_props(id as nat);
    lemma_digits_plain(a);
    let p = s.take(k);
    if p.len() > 0 {
        let j = k - 1;
        assert(p.last() == s[j]);
        if j == 0 {
            assert(s[j] == 'd');
        } else if j == 1 {
            assert(s[j] == ',');
        } else {
            assert(s[j] == a[j - 2]);
        }
        assert(p.last() != ';');
    }
}

/// A strict prefix of an insert line never decodes either: a cut before the
/// record's name loses the closing `;`, and a cut inside the name (whose
/// escaped text may itself contain `;`) leaves fewer characters than the
/// recorded name length.
#[verifier::rlimit(60)]
pub proof fn lemma_torn_prefix_insert(r: RowV, timestamp: i64, k: int)
    requires
        esc(r.name).len() <= u64::MAX as nat,
        0 <= k < spec_encode_insert(r, timestamp).len(),
    ensures
        decode_line(spec_encode_insert(r, timestamp).take(k)) is None,
{
    let s = spec_encode_insert(r, timestamp);
    let t = spec_dec_i64(timestamp as int);
    let a = spec_dec(r.id as nat);
    let b = spec_dec(r.age as nat);
    let e = esc(r.name);
    let c = spec_dec(e.len());
    crate::text::lemma_spec_dec_props(r.id as nat);
    crate::text::lemma_spec_dec_props(r.age as nat);
    crate::text::lemma_spec_dec_props(e.len());
    lemma_digits_plain(a);
    lemma_digits_plain(b);
    lemma_digits_plain(c);
    lemma_dec_i64_plain(timestamp as int);
    lemma_token_of_dec(r.id as u64);
    lemma_token_of_dec(r.age as u64);
    lemma_token_of_dec(e.len() as u64);
    lemma_token_of_dec_i64(timestamp);

    let a0 = 3 + t.len() as int;
    let b0 = a0 + a.len() + 1;
    let c0 = b0 + b.len() + 1;
    let e0 = c0 + c.len() + 1;
    assert(s.len() == e0 + e.len() + 1);

    let p = s.take(k);
    if p.len() == 0 {
        assert(decode_line(p) is None);
    } else {
        let j = k - 1;
        assert(p.last() == s[j]);
        // Everything before the name is a discriminator, separator or
        // numeral: never a semicolon.
        if j < e0 {
            if j == 0 {
                assert(s[j] == 'i');
            } else if j == 1 {
                assert(s[j] == ',');
            } else if j < 2 + t.len() {
                assert(s[j] == t[j - 2]);
            } else if j == 2 + t.len() {
                assert(s[j] == ',');
            } else if j < a0 + a.len() {
                assert(s[j] == a[j - a0]);
            } else if j == a0 + a.len() {
                assert(s[j] == ',');
            } else if j < b0 + b.len() {
                assert(s[j] == b[j - b0]);
            } else if j == b0 + b.len() {
                assert(s[j] == ',');
            } else if j < c0 + c.len() {
                assert(s[j] == c[j - c0]);
            } else {
                assert(j == c0 + c.len());
                assert(s[j] == ',');
            }
            assert(p.last() != ';');
            assert(decode_line(p) is None);
        } else {
            // The cut ends on a character of the escaped name that happens
            // to be a semicolon. The truncated name is then shorter than
            // the length recorded before it, so the record is rejected.
            assert(e0 <= j < e0 + e.len());
            let ep = e.take(j - e0);
            let body = p.drop_last();
            assert(body =~= s.take(j));
            let rest = a + seq![','] + b + seq![','] + c + seq![','] + ep;
            assert(body =~= seq!['i', ','] + t + seq![','] + rest);
            assert(body[0] == 'i' && body[1] == ',');
            assert(body.skip(2) =~= t + seq![','] + rest);
            lemma_split_boundary(t, rest);
            assert(rest =~= a + seq![','] + (b + seq![','] + (c + seq![','] + ep)));
            lemma_split_boundary(a, b + seq![','] + (c + seq![','] + ep));
            lemma_split_boundary(b, c + seq![','] + ep);
            lemma_split_boundary(c, ep);
            assert(token_u64(c) == Some(e.len() as u64));
            assert(ep.len() < e.len());
            assert(decode_record(rest) is None);
            assert(decode_line(p) is None);
        }
    }
}

/// A copy of `rows` without the rows whose key is `id`.
pub fn filter_out_id(rows: &Vec<Row>, id: u32) -> (r: Vec<Row>)
    ensures
        rows_view(r@) == remove_all_id(rows_view(rows@), id),
{
    let mut out: Vec<Row> = Vec::new();
    let mut i: usize = 0;
    while i < rows.len()
        invariant
            i <= rows.len(),
            rows_view(out@) == remove_all_id(rows_view(rows@.take(i as int)), id),
        decreases rows.len() - i,
    {
        let ghost pre = rows_view(rows@.take(i as int));
        let ghost cur = rows_view(rows@.take(i as int + 1));
        proof {
            assert(cur.drop_last() =~= pre);
            assert(cur.last() == rows@[i as int]@);
        }
        if rows[i].id != id {
            out.push(rows[i].clone());
            proof {
                assert(rows_view(out@) =~= remove_all_id(pre, id).push(rows@[i as int]@));
            }
        }
        i = i + 1;
    }
    proof {
        assert(rows@.take(rows@.len() as int) =~= rows@);
    }
    out
}

/// Replays a journal: the rows the journal's well-formed lines denote.
pub fn replay(lines: &Vec<String>) -> (rows: Vec<Row>)
    ensures
        rows_view(rows@) == replay_lines(lines_view(lines@)),
{
    let ghost lv = lines_view(lines@);
    let mut rows: Vec<Row> = Vec::new();
    let mut i: usize = 0;
    while i < lines.len()
        invariant
            i <= lines.len(),
            lv == lines_view(lines@),
            rows_view(rows@) == replay_lines(lv.take(i as int)),
        decreases lines.len() - i,
    {
        proof {
            assert(lv.take(i as int + 1).drop_last() =~= lv.take(i as int));
            assert(lv.take(i as int + 1).last() == lines@[i as int]@);
        }
        let ghost pre = rows_view(rows@);
        match decode_entry(lines[i].as_str()) {
            Some(LogEntry::Insert { row, .. }) => {
                rows.push(row);
                proof {
                    assert(rows_view(rows@) =~= pre.push(rows@.last()@));
                }
            },
            Some(LogEntry::Delete { id }) => {
                rows = filter_out_id(&rows, id);
            },
            None => {},
        }
        i = i + 1;
    }
    proof {
        assert(lv.take(lv.len() as int) =~= lv);
    }
    rows
}

/// Delete lines round-trip through line decoding.
pub proof fn lemma_decode_of_encode_delete(id: u32)
    ensures
        decode_line(spec_encode_delete(id)) == Some(LogEntryV::Delete { id }),
{
    let s = spec_encode_delete(id);
    let body = s.drop_last();
    assert(s.last() == ';');
    assert(body =~= seq!['d', ','] + spec_dec(id as nat));
    assert(body[0] == 'd');
    assert(body[1] == ',');
    assert(body.skip(2) =~= spec_dec(id as nat));
    lemma_token_of_dec(id as u64);
    crate::text::lemma_spec_dec_props(id as nat);
    lemma_digits_plain(spec_dec(id as nat));
    assert(body[0] != 'i');
}

// ---------------------------------------------------------------------------
// Snapshots
// ---------------------------------------------------------------------------

/// One snapshot line: a record behind an `r` discriminator, newline-ended.
pub open spec fn spec_snapshot_line(r: RowV) -> Seq<char> {
    seq!['r', ','] + spec_encode_record(r) + seq!['\n']
}

/// The snapshot text of a record collection: its rows' lines in order.
pub open spec fn spec_encode_snapshot(rows: Seq<RowV>) -> Seq<char>
    decreases rows.len(),
{
    if rows.len() == 0 {
        Seq::empty()
    } else {
        spec_snapshot_line(rows[0]) + spec_encode_snapshot(rows.skip(1))
    }
}

/// The record collection a snapshot text denotes. A snapshot is written
/// atomically, so unlike the journal any flaw rejects the whole text.
pub open spec fn decode_snapshot(s: Seq<char>) -> Option<Seq<RowV>>
    decreases s.len(),
{
    if s.len() == 0 {
        Some(Seq::empty())
    } else {
        match find_char(s, '\n') {
            None => None,
            Some(j) => if 0 <= j < s.len() {
                let line = s.take(j);
                if line.len() >= 2 && line[0] == 'r' && line[1] == ',' {
                    match decode_record(line.skip(2)) {
                        Some(r) => match decode_snapshot(s.skip(j + 1)) {
                            Some(rest) => Some(seq![r] + rest),
                            None => None,
                        },
                        None => None,
                    }
                } else {
                    None
                }
            } else {
                None
            },
        }
    }
}

/// The snapshot text of one row is its line.
proof fn lemma_snapshot_singleton(r: RowV)
    ensures
        spec_encode_snapshot(seq![r]) == spec_snapshot_line(r),
{
    let s = seq![r];
    assert(s.len() == 1);
    assert(s[0] == r);
    assert(s.skip(1) =~= Seq::<RowV>::empty());
    assert(spec_encode_snapshot(s) == spec_snapshot_line(r) + spec_encode_snapshot(s.skip(1)));
    assert(spec_encode_snapshot(s.skip(1)) == Seq::<char>::empty());
    assert(spec_snapshot_line(r) + Seq::<char>::empty() =~= spec_snapshot_line(r));
}

/// Snapshot texts concatenate.
proof fn lemma_snapshot_enc_append(a: Seq<RowV>, b: Seq<RowV>)
    ensures
        spec_encode_snapshot(a + b) == spec_encode_snapshot(a) + spec_encode_snapshot(b),
    decreases a.len(),
{
    if a.len() == 0 {
        assert(a + b =~= b);
        assert(spec_encode_snapshot(a) + spec_encode_snapshot(b) =~= spec_encode_snapshot(b));
    } else {
        lemma_snapshot_enc_append(a.skip(1), b);
        assert((a + b).skip(1) =~= a.skip(1) + b);
        assert((a + b)[0] == a[0]);
        assert(spec_encode_snapshot(a + b) =~= spec_encode_snapshot(a) + spec_encode_snapshot(b));
    }
}

/// A record's text contains no line break.
proof fn lemma_record_no_newline(r: RowV)
    ensures
        forall|i: int| 0 <= i < spec_encode_record(r).len() ==> #[trigger] spec_encode_record(r)[i]
            != '\n',
{
    let t_id = spec_dec(r.id as nat);
    let t_age = spec_dec(r.age as nat);
    let name_esc = esc(r.name);
    let t_len = spec_dec(name_esc.len());
    crate::text::lemma_spec_dec_props(r.id as nat);
    crate::text::lemma_spec_dec_props(r.age as nat);
    crate::text::lemma_spec_dec_props(name_esc.len());
    lemma_digits_plain(t_id);
    lemma_digits_plain(t_age);
    lemma_digits_plain(t_len);
    lemma_esc_no_newline(r.name);
    let s = spec_encode_record(r);
    assert forall|i: int| 0 <= i < s.len() implies #[trigger] s[i] != '\n' by {
        let n1 = t_id.len() as int;
        let n2 = n1 + 1 + t_age.len();
        let n3 = n2 + 1 + t_len.len();
        if i < n1 {
            assert(s[i] == t_id[i]);
        } else if i == n1 {
            assert(s[i] == ',');
        } else if i < n2 {
            assert(s[i] == t_age[i - n1 - 1]);
        } else if i == n2 {
            assert(s[i] == ',');
        } else if i < n3 {
            assert(s[i] == t_len[i - n2 - 1]);
        } else if i == n3 {
            assert(s[i] == ',');
        } else {
            assert(s[i] == name_esc[i - n3 - 1]);
        }
    }
}

/// Snapshot encoding round-trips through snapshot decoding.
pub proof fn lemma_snapshot_round_trip(rows: Seq<RowV>)
    requires
        forall|i: int| 0 <= i < rows.len() ==> esc(#[trigger] rows[i].name).len() <= u64::MAX
            as nat,
    ensures
        decode_snapshot(spec_encode_snapshot(rows)) == Some(rows),
    decreases rows.len(),
{
    if rows.len() > 0 {
        let r0 = rows[0];
        let rest = rows.skip(1);
        let head = seq!['r', ','] + spec_encode_record(r0);
        let s = spec_encode_snapshot(rows);
        lemma_record_no_newline(r0);
        assert(forall|i: int| 0 <= i < head.len() ==> head[i] != '\n');
        assert(s =~= head + seq!['\n'] + spec_encode_snapshot(rest));
        lemma_find_boundary(head, '\n', spec_encode_snapshot(rest));
        assert(s.take(head.len() as int) =~= head);
        assert(s.skip(head.len() as int + 1) =~= spec_encode_snapshot(rest));
        assert(head.skip(2) =~= spec_encode_record(r0));
        lemma_decode_record_of_encode(r0);
        lemma_snapshot_round_trip(rest);
        assert(seq![r0] + rest =~= rows);
    }
}

/// Builds the snapshot text of a record collection.
pub fn snapshot_encode(rows: &Vec<Row>) -> (s: String)
    ensures
        s@ == spec_encode_snapshot(rows_view(rows@)),
        forall|i: int| 0 <= i < rows@.len() ==> esc(#[trigger] rows_view(rows@)[i].name).len()
            <= u64::MAX as nat,
{
    let mut out: Vec<char> = Vec::new();
    let mut i: usize = 0;
    while i < rows.len()
        invariant
            i <= rows.len(),
            out@ == spec_encode_snapshot(rows_view(rows@.take(i as int))),
            forall|k: int| 0 <= k < i ==> esc(#[trigger] rows_view(rows@)[k].name).len()
                <= u64::MAX as nat,
        decreases rows.len() - i,
    {
        let ghost pre = rows_view(rows@.take(i as int));
        out.push('r');
        out.push(',');
        push_record(&rows[i], &mut out);
        out.push('\n');
        proof {
            let cur = rows_view(rows@.take(i as int + 1));
            assert(cur =~= pre + seq![rows@[i as int]@]);
            lemma_snapshot_enc_append(pre, seq![rows@[i as int]@]);
            lemma_snapshot_singleton(rows@[i as int]@);
            assert(out@ =~= spec_encode_snapshot(cur));
        }
        i = i + 1;
    }
    proof {
        assert(rows@.take(rows@.len() as int) =~= rows@);
    }
    chars_to_string(&out)
}

/// Reads a snapshot text back into its record collection.
pub fn snapshot_decode(text: &str) -> (r: Option<Vec<Row>>)
    ensures
        match r {
            Some(rows) => decode_snapshot(text@) == Some(rows_view(rows@)),
            None => decode_snapshot(text@) is None,
        },
{
    let v = str_to_chars(text);
    let ghost whole = v@;
    let mut out: Vec<Row> = Vec::new();
    let mut pos: usize = 0;
    proof {
        assert(v@.skip(0) =~= v@);
        if decode_snapshot(whole) is Some {
            let t0 = decode_snapshot(whole).unwrap();
            assert(rows_view(out@) + t0 =~= t0);
        }
    }
    while pos < v.len()
        invariant
            pos <= v.len(),
            whole == v@,
            whole == text@,
            match decode_snapshot(v@.skip(pos as int)) {
                Some(t) => decode_snapshot(whole) == Some(rows_view(out@) + t),
                None => decode_snapshot(whole) is None,
            },
        decreases v.len() - pos,
    {
        let ghost tail = v@.skip(pos as int);
        let j = match find_in_range(&v, pos, v.len(), '\n') {
            Some(j) => j,
            None => {
                proof {
                    assert(tail =~= v@.subrange(pos as int, v@.len() as int));
                    assert(decode_snapshot(tail) is None);
                    assert(decode_snapshot(whole) is None);
                }
                return None;
            },
        };
        proof {
            assert(tail =~= v@.subrange(pos as int, v@.len() as int));
            assert(tail.take(j - pos) =~= v@.subrange(pos as int, j as int));
            assert(tail.skip(j - pos + 1) =~= v@.skip(j as int + 1));
            assert(find_char(tail, '\n') == Some(j - pos));
            assert(0 <= j - pos < tail.len());
        }
        let ghost line = tail.take(j - pos);
        if j - pos < 2 {
            proof {
                assert(line.len() < 2);
                assert(decode_snapshot(tail) is None);
            }
            return None;
        }
        if !(v[pos] == 'r' && v[pos + 1] == ',') {
            assert(line[0] == v@[pos as int] && line[1] == v@[pos as int + 1]);
            return None;
        }
        proof {
            assert(line[0] == 'r' && line[1] == ',');
            assert(line.skip(2) =~= v@.subrange(pos as int + 2, j as int));
        }
        let row = match decode_record_range(&v, pos + 2, j) {
            Some(row) => row,
            None => {
                return None;
            },
        };
        let ghost pre = rows_view(out@);
        out.push(row);
        proof {
            if decode_snapshot(v@.skip(j as int + 1)) is Some {
                let t2 = decode_snapshot(v@.skip(j as int + 1)).unwrap();
                assert(decode_snapshot(tail) == Some(seq![row@] + t2));
                assert(rows_view(out@) =~= pre.push(row@));
                assert(rows_view(out@) + t2 =~= pre + (seq![row@] + t2));
            }
        }
        pos = j + 1;
    }
    proof {
        assert(v@.skip(v@.len() as int) =~= Seq::<char>::empty());
        assert(rows_view(out@) + Seq::<RowV>::empty() =~= rows_view(out@));
    }
    Some(out)
}

} // verus!
