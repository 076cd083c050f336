//! The command grammar: one line of text to one [`Command`].
//!
//! Commands are case-insensitive and whitespace-separated. The meaning of a
//! line is pinned down by [`parse_spec`]: trim, lowercase, split on
//! whitespace, then read the leading keyword.

use vstd::prelude::*;
use crate::errors::DbError;
use crate::storage::find_char;
use crate::text::{chars_eq_str, chars_to_string, parse_u64_token, str_to_chars, token_u64};
use vstd::string::StringExecFns;

verus! {

/// The mathematical value of a [`Command`].
pub enum CommandV {
    Insert { id: u32, name: Seq<char>, age: u8 },
    ExecBatch { path: Seq<char> },
    SelectById { id: u32 },
    DeleteById { id: u32 },
    Select,
    Exit,
    Help,
    Reset,
}

/// A parsed command, ready for the engine or the surrounding shell.
#[derive(Debug)]
pub enum Command {
    /// Insert a new row with the given field values.
    Insert { id: u32, name: String, age: u8 },
    /// Apply the commands held in a file, line by line.
    ExecBatch { path: String },
    /// Look one row up by key.
    SelectById { id: u32 },
    /// Delete one row by key.
    DeleteById { id: u32 },
    /// List every live row.
    Select,
    /// Flush and leave.
    Exit,
    /// Show the command summary.
    Help,
    /// Clear the store.
    Reset,
}

impl View for Command {
    type V = CommandV;

    open spec fn view(&self) -> CommandV {
        match self {
            Command::Insert { id, name, age } => CommandV::Insert {
                id: *id,
                name: name@,
                age: *age,
            },
            Command::ExecBatch { path } => CommandV::ExecBatch { path: path@ },
            Command::SelectById { id } => CommandV::SelectById { id: *id },
            Command::DeleteById { id } => CommandV::DeleteById { id: *id },
            Command::Select => CommandV::Select,
            Command::Exit => CommandV::Exit,
            Command::Help => CommandV::Help,
            Command::Reset => CommandV::Reset,
        }
    }
}

impl PartialEq for Command {
    fn eq(&self, other: &Command) -> (r: bool) {
        match (self, other) {
            (
                Command::Insert { id: a, name: b, age: c },
                Command::Insert { id: d, name: e, age: f },
            ) => *a == *d && *b == *e && *c == *f,
            (Command::ExecBatch { path: a }, Command::ExecBatch { path: b }) => *a == *b,
            (Command::SelectById { id: a }, Command::SelectById { id: b }) => *a == *b,
            (Command::DeleteById { id: a }, Command::DeleteById { id: b }) => *a == *b,
            (Command::Select, Command::Select) => true,
            (Command::Exit, Command::Exit) => true,
            (Command::Help, Command::Help) => true,
            (Command::Reset, Command::Reset) => true,
            _ => false,
        }
    }
}

impl vstd::std_specs::cmp::PartialEqSpecImpl for Command {
    open spec fn obeys_eq_spec() -> bool {
        true
    }

    open spec fn eq_spec(&self, other: &Command) -> bool {
        self@ == other@
    }
}

// ---------------------------------------------------------------------------
// The grammar, as specification
// ---------------------------------------------------------------------------

/// Whitespace, for command splitting.
pub open spec fn is_space(c: char) -> bool {
    c == ' ' || c == '\t' || c == '\r' || c == '\n'
}

/// ASCII lowercasing of one character.
pub open spec fn lower_char(c: char) -> char {
    if 'A' <= c && c <= 'Z' {
        ((c as u8) + 32) as char
    } else {
        c
    }
}

/// ASCII lowercasing of a line.
pub open spec fn to_lower(s: Seq<char>) -> Seq<char> {
    s.map_values(|c: char| lower_char(c))
}

/// The line without leading whitespace.
pub open spec fn trim_front(s: Seq<char>) -> Seq<char>
    decreases s.len(),
{
    if s.len() > 0 && is_space(s[0]) {
        trim_front(s.skip(1))
    } else {
        s
    }
}

/// The line without trailing whitespace.
pub open spec fn trim_back(s: Seq<char>) -> Seq<char>
    decreases s.len(),
{
    if s.len() > 0 && is_space(s.last()) {
        trim_back(s.drop_last())
    } else {
        s
    }
}

/// The line without surrounding whitespace.
pub open spec fn trim(s: Seq<char>) -> Seq<char> {
    trim_back(trim_front(s))
}

/// Length of the maximal non-space prefix.
pub open spec fn word_len(s: Seq<char>) -> int
    decreases s.len(),
{
    if s.len() == 0 || is_space(s[0]) {
        0
    } else {
        1 + word_len(s.skip(1))
    }
}

proof fn lemma_word_len_bounds(s: Seq<char>)
    ensures
        0 <= word_len(s) <= s.len(),
        s.len() > 0 && !is_space(s[0]) ==> word_len(s) >= 1,
    decreases s.len(),
{
    if s.len() > 0 && !is_space(s[0]) {
        lemma_word_len_bounds(s.skip(1));
    }
}

/// The whitespace-separated words of a line, in order.
pub open spec fn split_ws(s: Seq<char>) -> Seq<Seq<char>>
    decreases s.len(),
    via split_ws_decreases
{
    if s.len() == 0 {
        Seq::empty()
    } else if is_space(s[0]) {
        split_ws(s.skip(1))
    } else {
        let w = word_len(s);
        seq![s.take(w)] + split_ws(s.skip(w))
    }
}

#[via_fn]
proof fn split_ws_decreases(s: Seq<char>) {
    lemma_word_len_bounds(s);
}

/// How a line parses: a command, a syntax error, or a malformed number.
pub enum ParseResultV {
    Cmd(CommandV),
    Invalid,
    BadNumber,
}

/// The value of a `<u32>` token, also used for the `id=<u32>` forms.
pub open spec fn token_u32_of(t: Seq<char>) -> Option<u32> {
    match token_u64(t) {
        Some(v) => if v <= u32::MAX as u64 {
            Some(v as u32)
        } else {
            None
        },
        None => None,
    }
}

/// The key named by a `id=<u32>` token: the digits between the `=` and the
/// next `=` or the end.
pub open spec fn id_selector(t: Seq<char>) -> Option<u32> {
    if t.len() >= 3 && t.take(3) == "id="@ {
        let rest = t.skip(3);
        let v = match find_char(rest, '=') {
            Some(j) => rest.take(j),
            None => rest,
        };
        token_u32_of(v)
    } else {
        None
    }
}

/// Whether a `where id=...` clause is even shaped right (its number may
/// still be bad).
pub open spec fn id_selector_shaped(t: Seq<char>) -> bool {
    t.len() >= 3 && t.take(3) == "id="@
}

/// What a command line means.
pub open spec fn parse_spec(input: Seq<char>) -> ParseResultV {
    let line = to_lower(trim(input));
    if line.len() == 0 {
        ParseResultV::Invalid
    } else {
        let toks = split_ws(line);
        if toks.len() == 0 {
            ParseResultV::Invalid
        } else if toks[0] == "exec"@ {
            if toks.len() == 3 && toks[1] == "batch"@ {
                ParseResultV::Cmd(CommandV::ExecBatch { path: toks[2] })
            } else {
                ParseResultV::Invalid
            }
        } else if toks[0] == "insert"@ {
            if toks.len() == 4 {
                match token_u32_of(toks[1]) {
                    Some(id) => match crate::storage::token_u8(toks[3]) {
                        Some(age) => ParseResultV::Cmd(
                            CommandV::Insert { id, name: toks[2], age },
                        ),
                        None => ParseResultV::BadNumber,
                    },
                    None => ParseResultV::BadNumber,
                }
            } else {
                ParseResultV::Invalid
            }
        } else if toks[0] == "select"@ {
            if toks.len() == 1 {
                ParseResultV::Cmd(CommandV::Select)
            } else if toks.len() == 3 && toks[1] == "where"@ && id_selector_shaped(toks[2]) {
                match id_selector(toks[2]) {
                    Some(id) => ParseResultV::Cmd(CommandV::SelectById { id }),
                    None => ParseResultV::BadNumber,
                }
            } else {
                ParseResultV::Invalid
            }
        } else if toks[0] == "delete"@ {
            if toks.len() == 3 && toks[1] == "where"@ && id_selector_shaped(toks[2]) {
                match id_selector(toks[2]) {
                    Some(id) => ParseResultV::Cmd(CommandV::DeleteById { id }),
                    None => ParseResultV::BadNumber,
                }
            } else {
                ParseResultV::Invalid
            }
        } else if toks[0] == "exit"@ {
            ParseResultV::Cmd(CommandV::Exit)
        } else if toks[0] == "help"@ {
            ParseResultV::Cmd(CommandV::Help)
        } else if toks[0] == "reset"@ {
            ParseResultV::Cmd(CommandV::Reset)
        } else {
            ParseResultV::Invalid
        }
    }
}

// ---------------------------------------------------------------------------
// Executable parsing
// ---------------------------------------------------------------------------

proof fn lemma_trim_front_at(s: Seq<char>, a: int)
    requires
        0 <= a <= s.len(),
        forall|k: int| 0 <= k < a ==> is_space(#[trigger] s[k]),
        a < s.len() ==> !is_space(s[a]),
    ensures
        trim_front(s) == s.skip(a),
    decreases a,
{
    if a == 0 {
        if s.len() > 0 && is_space(s[0]) {
            assert(false);
        }
        assert(s.skip(0) =~= s);
    } else {
        assert(is_space(s[0]));
        lemma_trim_front_at(s.skip(1), a - 1);
        assert(s.skip(1).skip(a - 1) =~= s.skip(a));
    }
}

proof fn lemma_trim_back_at(s: Seq<char>, b: int)
    requires
        0 <= b <= s.len(),
        forall|k: int| b <= k < s.len() ==> is_space(#[trigger] s[k]),
        b > 0 ==> !is_space(s[b - 1]),
    ensures
        trim_back(s) == s.take(b),
    decreases s.len() - b,
{
    if b == s.len() as int {
        if s.len() > 0 && is_space(s.last()) {
            assert(false);
        }
        assert(s.take(b) =~= s);
    } else {
        assert(is_space(s.last()));
        lemma_trim_back_at(s.drop_last(), b);
        assert(s.drop_last().take(b) =~= s.take(b));
    }
}

/// The trimmed copy of a line.
fn trim_chars(s: &Vec<char>) -> (r: Vec<char>)
    ensures
        r@ == trim(s@),
{
    let n = s.len();
    let mut a: usize = 0;
    while a < n && (s[a] == ' ' || s[a] == '\t' || s[a] == '\r' || s[a] == '\n')
        invariant
            a <= n,
            n == s@.len(),
            forall|k: int| 0 <= k < a ==> is_space(#[trigger] s@[k]),
        decreases n - a,
    {
        a = a + 1;
    }
    proof {
        lemma_trim_front_at(s@, a as int);
    }
    let mut b: usize = n;
    while b > a && (s[b - 1] == ' ' || s[b - 1] == '\t' || s[b - 1] == '\r' || s[b - 1] == '\n')
        invariant
            a <= b <= n,
            n == s@.len(),
            forall|k: int| b <= k < n ==> is_space(#[trigger] s@[k]),
        decreases b,
    {
        b = b - 1;
    }
    let ghost front = s@.skip(a as int);
    proof {
        if b > a {
            assert(!is_space(s@[b - 1]));
        }
        assert forall|k: int| b - a <= k < front.len() implies is_space(#[trigger] front[k]) by {
            assert(front[k] == s@[k + a]);
        }
        if b > a {
            assert(front[b - a - 1] == s@[b - 1]);
        }
        lemma_trim_back_at(front, b - a);
    }
    let mut out: Vec<char> = Vec::new();
    let mut i = a;
    while i < b
        invariant
            a <= i <= b <= n,
            n == s@.len(),
            out@ == s@.subrange(a as int, i as int),
        decreases b - i,
    {
        out.push(s[i]);
        proof {
            assert(s@.subrange(a as int, i as int + 1) =~= s@.subrange(a as int, i as int).push(
                s@[i as int],
            ));
        }
        i = i + 1;
    }
    proof {
        assert(front.take(b - a) =~= s@.subrange(a as int, b as int));
    }
    out
}

/// The ASCII-lowercased copy of a line.
fn lower_chars(s: &Vec<char>) -> (r: Vec<char>)
    ensures
        r@ == to_lower(s@),
{
    let mut out: Vec<char> = Vec::new();
    let mut i: usize = 0;
    while i < s.len()
        invariant
            i <= s.len(),
            out@ == to_lower(s@.take(i as int)),
        decreases s.len() - i,
    {
        let c = s[i];
        if c >= 'A' && c <= 'Z' {
            out.push(((c as u8) + 32) as char);
        } else {
            out.push(c);
        }
        proof {
            assert(to_lower(s@.take(i as int + 1)) =~= to_lower(s@.take(i as int)).push(
                lower_char(s@[i as int]),
            ));
        }
        i = i + 1;
    }
    proof {
        assert(s@.take(s@.len() as int) =~= s@);
    }
    out
}

/// The views of a token list.
pub open spec fn toks_view(ts: Seq<Vec<char>>) -> Seq<Seq<char>> {
    ts.map_values(|t: Vec<char>| t@)
}

proof fn lemma_word_len_at(s: Seq<char>, w: int)
    requires
        0 <= w <= s.len(),
        forall|k: int| 0 <= k < w ==> !is_space(#[trigger] s[k]),
        w < s.len() ==> is_space(s[w]),
    ensures
        word_len(s) == w,
    decreases w,
{
    if w == 0 {
    } else {
        assert(!is_space(s[0]));
        lemma_word_len_at(s.skip(1), w - 1);
    }
}

/// A copy of `v[from..to]`.
fn copy_range(v: &Vec<char>, from: usize, to: usize) -> (r: Vec<char>)
    requires
        from <= to <= v.len(),
    ensures
        r@ == v@.subrange(from as int, to as int),
{
    let mut out: Vec<char> = Vec::new();
    let mut i = from;
    while i < to
        invariant
            from <= i <= to <= v.len(),
            out@ == v@.subrange(from as int, i as int),
        decreases to - i,
    {
        out.push(v[i]);
        proof {
            assert(v@.subrange(from as int, i as int + 1) =~= v@.subrange(
                from as int,
                i as int,
            ).push(v@[i as int]));
        }
        i = i + 1;
    }
    out
}

/// The whitespace-separated words of a line.
fn split_ws_chars(line: &Vec<char>) -> (toks: Vec<Vec<char>>)
    ensures
        toks_view(toks@) == split_ws(line@),
{
    let n = line.len();
    let mut toks: Vec<Vec<char>> = Vec::new();
    let mut i: usize = 0;
    proof {
        assert(line@.skip(0) =~= line@);
        assert(toks_view(toks@) + split_ws(line@) =~= split_ws(line@));
    }
    while i < n
        invariant
            i <= n,
            n == line@.len(),
            split_ws(line@) == toks_view(toks@) + split_ws(line@.skip(i as int)),
        decreases n - i,
    {
        let ghost tail = line@.skip(i as int);
        let c = line[i];
        if c == ' ' || c == '\t' || c == '\r' || c == '\n' {
            proof {
                assert(is_space(tail[0]));
                assert(tail.skip(1) =~= line@.skip(i as int + 1));
            }
            i = i + 1;
        } else {
            let mut j = i;
            while j < n && !(line[j] == ' ' || line[j] == '\t' || line[j] == '\r' || line[j]
                == '\n')
                invariant
                    i <= j <= n,
                    n == line@.len(),
                    forall|k: int| i <= k < j ==> !is_space(#[trigger] line@[k]),
                decreases n - j,
            {
                j = j + 1;
            }
            proof {
                assert forall|k: int| 0 <= k < j - i implies !is_space(#[trigger] tail[k]) by {
                    assert(tail[k] == line@[k + i]);
                }
                if j < n {
                    assert(tail[j - i] == line@[j as int]);
                }
                lemma_word_len_at(tail, j - i);
                assert(tail.take(j - i) =~= line@.subrange(i as int, j as int));
                assert(tail.skip(j - i) =~= line@.skip(j as int));
            }
            let w = copy_range(line, i, j);
            let ghost pre = toks_view(toks@);
            toks.push(w);
            proof {
                assert(toks_view(toks@) =~= pre.push(line@.subrange(i as int, j as int)));
                assert(pre + (seq![line@.subrange(i as int, j as int)] + split_ws(
                    line@.skip(j as int),
                )) =~= toks_view(toks@) + split_ws(line@.skip(j as int)));
            }
            i = j;
        }
    }
    proof {
        assert(line@.skip(n as int) =~= Seq::<char>::empty());
        assert(toks_view(toks@) + Seq::<Seq<char>>::empty() =~= toks_view(toks@));
    }
    toks
}

/// Reads a whole token as an age.
fn parse_u8_all(t: &Vec<char>) -> (r: Option<u8>)
    ensures
        r == crate::storage::token_u8(t@),
{
    proof {
        assert(t@.subrange(0, t@.len() as int) =~= t@);
    }
    match parse_u64_token(t, 0, t.len()) {
        Some(v) => if v <= u8::MAX as u64 {
            Some(v as u8)
        } else {
            None
        },
        None => None,
    }
}

/// Reads a whole token as a key.
fn parse_u32_all(t: &Vec<char>) -> (r: Option<u32>)
    ensures
        r == token_u32_of(t@),
{
    proof {
        assert(t@.subrange(0, t@.len() as int) =~= t@);
    }
    match parse_u64_token(t, 0, t.len()) {
        Some(v) => if v <= u32::MAX as u64 {
            Some(v as u32)
        } else {
            None
        },
        None => None,
    }
}

/// Reads the key out of an `id=<u32>` token.
fn parse_id_selector(t: &Vec<char>) -> (r: Option<u32>)
    requires
        id_selector_shaped(t@),
    ensures
        r == id_selector(t@),
{
    let ghost rest = t@.skip(3);
    let to = match crate::storage::find_in_range(t, 3, t.len(), '=') {
        Some(j) => {
            proof {
                assert(rest =~= t@.subrange(3, t@.len() as int));
                assert(rest.take(j - 3) =~= t@.subrange(3, j as int));
            }
            j
        },
        None => {
            proof {
                assert(rest =~= t@.subrange(3, t@.len() as int));
            }
            t.len()
        },
    };
    match parse_u64_token(t, 3, to) {
        Some(v) => if v <= u32::MAX as u64 {
            Some(v as u32)
        } else {
            None
        },
        None => None,
    }
}

/// Parses one command line.
///
/// Exactly the lines [`parse_spec`] gives a command for succeed; a line
/// with a malformed number is a `ParseError`, anything else unrecognized an
/// `InvalidCommandError`.
pub fn parse_command(input: &str) -> (r: Result<Command, DbError>)
    ensures
        match r {
            Ok(c) => parse_spec(input@) == ParseResultV::Cmd(c@),
            Err(e) => {
                &&& (e matches DbError::InvalidCommandError ==> parse_spec(input@)
                    == ParseResultV::Invalid)
                &&& (e matches DbError::ParseError(_) ==> parse_spec(input@)
                    == ParseResultV::BadNumber)
                &&& (e matches DbError::InvalidCommandError || e matches DbError::ParseError(_))
            },
        },
{
    let chars = str_to_chars(input);
    let trimmed = trim_chars(&chars);
    let line = lower_chars(&trimmed);
    if line.len() == 0 {
        return Err(DbError::InvalidCommandError);
    }
    let toks = split_ws_chars(&line);
    let ghost tv = split_ws(line@);
    if toks.len() == 0 {
        return Err(DbError::InvalidCommandError);
    }
    proof {
        assert(tv[0] == toks@[0]@);
    }
    if chars_eq_str(&toks[0], "exec") {
        if toks.len() == 3 && chars_eq_str(&toks[1], "batch") {
            proof {
                assert(tv[1] == toks@[1]@);
                assert(tv[2] == toks@[2]@);
            }
            let path = chars_to_string(&toks[2]);
            Ok(Command::ExecBatch { path })
        } else {
            proof {
                if toks.len() == 3 {
                    assert(tv[1] == toks@[1]@);
                }
            }
            Err(DbError::InvalidCommandError)
        }
    } else if chars_eq_str(&toks[0], "insert") {
        if toks.len() == 4 {
            proof {
                assert(tv[1] == toks@[1]@);
                assert(tv[2] == toks@[2]@);
                assert(tv[3] == toks@[3]@);
            }
            let id = match parse_u32_all(&toks[1]) {
                Some(id) => id,
                None => {
                    return Err(
                        DbError::ParseError(String::from_str(
                            "ID must be a valid unsigned integer",
                        )),
                    );
                },
            };
            let age = match parse_u8_all(&toks[3]) {
                Some(v) => v,
                None => {
                    return Err(
                        DbError::ParseError(String::from_str("Age must be a valid integer (0-255)")),
                    );
                },
            };
            let name = chars_to_string(&toks[2]);
            Ok(Command::Insert { id, name, age })
        } else {
            Err(DbError::InvalidCommandError)
        }
    } else if chars_eq_str(&toks[0], "select") {
        if toks.len() == 1 {
            Ok(Command::Select)
        } else if toks.len() == 3 && chars_eq_str(&toks[1], "where") && starts_with_id(&toks[2]) {
            proof {
                assert(tv[1] == toks@[1]@);
                assert(tv[2] == toks@[2]@);
            }
            match parse_id_selector(&toks[2]) {
                Some(id) => Ok(Command::SelectById { id }),
                None => Err(DbError::ParseError(String::from_str("Id not found"))),
            }
        } else {
            proof {
                if toks.len() == 3 {
                    assert(tv[1] == toks@[1]@);
                    assert(tv[2] == toks@[2]@);
                }
            }
            Err(DbError::InvalidCommandError)
        }
    } else if chars_eq_str(&toks[0], "delete") {
        if toks.len() == 3 && chars_eq_str(&toks[1], "where") && starts_with_id(&toks[2]) {
            proof {
                assert(tv[1] == toks@[1]@);
                assert(tv[2] == toks@[2]@);
            }
            match parse_id_selector(&toks[2]) {
                Some(id) => Ok(Command::DeleteById { id }),
                None => Err(DbError::ParseError(String::from_str("Id not found"))),
            }
        } else {
            proof {
                if toks.len() == 3 {
                    assert(tv[1] == toks@[1]@);
                    assert(tv[2] == toks@[2]@);
                }
            }
            Err(DbError::InvalidCommandError)
        }
    } else if chars_eq_str(&toks[0], "exit") {
        Ok(Command::Exit)
    } else if chars_eq_str(&toks[0], "help") {
        Ok(Command::Help)
    } else if chars_eq_str(&toks[0], "reset") {
        Ok(Command::Reset)
    } else {
        Err(DbError::InvalidCommandError)
    }
}

/// Whether a token begins with `id=`.
fn starts_with_id(t: &Vec<char>) -> (r: bool)
    ensures
        r == id_selector_shaped(t@),
{
    proof {
        reveal_strlit("id=");
    }
    if t.len() >= 3 && t[0] == 'i' && t[1] == 'd' && t[2] == '=' {
        proof {
            assert(t@.take(3) =~= "id="@);
        }
        true
    } else {
        proof {
            if t@.len() >= 3 {
                if t@.take(3) == "id="@ {
                    assert(t@.take(3)[0] == t@[0]);
                    assert(t@.take(3)[1] == t@[1]);
                    assert(t@.take(3)[2] == t@[2]);
                    assert("id="@[0] == 'i' && "id="@[1] == 'd' && "id="@[2] == '=');
                }
            }
        }
        false
    }
}

} // verus!
