//! Character-level helpers shared by the journal codec and the command
//! parser: decimal numerals, name escaping, and `String` conversions.

use vstd::prelude::*;
use vstd::arithmetic::div_mod::lemma_fundamental_div_mod;
use vstd::std_specs::iter::IteratorSpec;
use vstd::string::StrSliceExecFns;

verus! {

// ---------------------------------------------------------------------------
// Decimal numerals
// ---------------------------------------------------------------------------

/// A decimal digit character.
pub open spec fn is_digit(c: char) -> bool {
    '0' <= c && c <= '9'
}

/// Numeric value of a digit character.
pub open spec fn digit_val(c: char) -> int {
    c as int - '0' as int
}

/// The digit character for a value in `0..10`.
pub open spec fn char_of_digit(d: int) -> char {
    ((d + 48) as u8) as char
}

/// Decimal numeral of `n`, most significant digit first, no leading zeros.
pub open spec fn spec_dec(n: nat) -> Seq<char>
    decreases n,
{
    if n < 10 {
        seq![char_of_digit(n as int)]
    } else {
        spec_dec(n / 10).push(char_of_digit((n % 10) as int))
    }
}

/// Every character of `s` is a decimal digit.
pub open spec fn all_digits(s: Seq<char>) -> bool {
    forall|i: int| 0 <= i < s.len() ==> is_digit(#[trigger] s[i])
}

/// The value of a digit string, read most significant digit first.
pub open spec fn dec_val(s: Seq<char>) -> int
    decreases s.len(),
{
    if s.len() == 0 {
        0
    } else {
        dec_val(s.drop_last()) * 10 + digit_val(s.last())
    }
}

/// Ten to the `n`.
pub open spec fn pow10(n: nat) -> int
    decreases n,
{
    if n == 0 {
        1
    } else {
        10 * pow10((n - 1) as nat)
    }
}

pub proof fn lemma_char_of_digit_val(d: int)
    requires
        0 <= d < 10,
    ensures
        is_digit(char_of_digit(d)),
        digit_val(char_of_digit(d)) == d,
{
}

/// The numeral of `n` is a nonempty digit string whose value is `n`.
pub proof fn lemma_spec_dec_props(n: nat)
    ensures
        spec_dec(n).len() >= 1,
        all_digits(spec_dec(n)),
        dec_val(spec_dec(n)) == n,
    decreases n,
{
    if n < 10 {
        lemma_char_of_digit_val(n as int);
        let s = spec_dec(n);
        assert(s =~= seq![char_of_digit(n as int)]);
        assert(s.len() == 1);
        assert(s.drop_last() =~= Seq::<char>::empty());
        assert(dec_val(s.drop_last()) == 0);
        assert(s.last() == char_of_digit(n as int));
        assert(dec_val(s) == dec_val(s.drop_last()) * 10 + digit_val(s.last()));
        assert(dec_val(s) == n);
    } else {
        lemma_spec_dec_props(n / 10);
        lemma_char_of_digit_val((n % 10) as int);
        lemma_fundamental_div_mod(n as int, 10);
        let s = spec_dec(n);
        assert(s == spec_dec(n / 10).push(char_of_digit((n % 10) as int)));
        assert(s.drop_last() =~= spec_dec(n / 10));
        assert(s.last() == char_of_digit((n % 10) as int));
        assert(dec_val(s) == dec_val(spec_dec(n / 10)) * 10 + (n % 10));
        assert(dec_val(s) == (n / 10) * 10 + (n % 10));
        assert(n == 10 * (n as int / 10) + n as int % 10);
        assert(dec_val(s) == n);
    }
}

/// A digit string's value is bounded by ten to its length.
pub proof fn lemma_dec_val_bound(s: Seq<char>)
    requires
        all_digits(s),
    ensures
        0 <= dec_val(s) < pow10(s.len()),
    decreases s.len(),
{
    if s.len() > 0 {
        lemma_dec_val_bound(s.drop_last());
    }
}

/// Every `u64` is below ten to the twentieth.
pub proof fn lemma_pow10_20_covers()
    ensures
        pow10(19) == 10_000_000_000_000_000_000,
        (u64::MAX as int) < pow10(20),
{
    reveal_with_fuel(pow10, 21);
    assert(pow10(19) == 10_000_000_000_000_000_000);
}

/// Appends the decimal numeral of `n` to `out`.
pub fn push_dec(n: u64, out: &mut Vec<char>)
    ensures
        final(out)@ == old(out)@ + spec_dec(n as nat),
    decreases n,
{
    if n < 10 {
        out.push((n as u8 + 48) as char);
    } else {
        push_dec(n / 10, out);
        out.push(((n % 10) as u8 + 48) as char);
        assert(out@ =~= old(out)@ + spec_dec(n as nat));
    }
}

/// The meaning of a token as an unsigned number: a digit string of at most
/// twenty digits whose value fits in a `u64`.
pub open spec fn token_u64(t: Seq<char>) -> Option<u64> {
    if 1 <= t.len() <= 20 && all_digits(t) && dec_val(t) <= u64::MAX as int {
        Some(dec_val(t) as u64)
    } else {
        None
    }
}

/// Numerals round-trip through `token_u64`.
pub proof fn lemma_token_of_dec(n: u64)
    ensures
        spec_dec(n as nat).len() <= 20,
        token_u64(spec_dec(n as nat)) == Some(n),
{
    lemma_spec_dec_props(n as nat);
    lemma_pow10_20_covers();
    lemma_dec_len_le(n as nat, 20);
    lemma_dec_val_bound(spec_dec(n as nat));
    assert(dec_val(spec_dec(n as nat)) as u64 == n);
}

/// Extending a digit string never shrinks its value.
pub proof fn lemma_dec_val_prefix(t: Seq<char>, i: int)
    requires
        all_digits(t),
        0 <= i <= t.len(),
    ensures
        dec_val(t) >= dec_val(t.subrange(0, i)),
    decreases t.len() - i,
{
    if i < t.len() {
        let p = t.subrange(0, i);
        let q = t.subrange(0, i + 1);
        assert(q.drop_last() =~= p);
        lemma_dec_val_bound(p);
        lemma_dec_val_prefix(t, i + 1);
    } else {
        assert(t.subrange(0, i) =~= t);
    }
}

/// Numbers below ten to the `k` have numerals of at most `k` digits.
proof fn lemma_dec_len_le(n: nat, k: nat)
    requires
        k >= 1,
        n < pow10(k),
    ensures
        spec_dec(n).len() <= k,
    decreases n,
{
    if n >= 10 {
        assert(pow10(k) == 10 * pow10((k - 1) as nat));
        lemma_fundamental_div_mod(n as int, 10);
        lemma_dec_len_le(n / 10, (k - 1) as nat);
    }
}

/// Reads the token `s[from..to]` as an unsigned number.
pub fn parse_u64_token(s: &Vec<char>, from: usize, to: usize) -> (r: Option<u64>)
    requires
        from <= to <= s.len(),
    ensures
        r == token_u64(s@.subrange(from as int, to as int)),
{
    let ghost t = s@.subrange(from as int, to as int);
    let len = to - from;
    if len < 1 || len > 20 {
        return None;
    }
    let mut acc: u64 = 0;
    let mut i = from;
    while i < to
        invariant
            from <= i <= to <= s.len(),
            1 <= to - from <= 20,
            t == s@.subrange(from as int, to as int),
            all_digits(t.subrange(0, i - from)),
            acc == dec_val(t.subrange(0, i - from)),
        decreases to - i,
    {
        let c = s[i];
        if c < '0' || c > '9' {
            assert(t[i - from] == c);
            return None;
        }
        let d = (c as u32 - 48) as u64;
        let ghost prev = t.subrange(0, i - from);
        let ghost cur = t.subrange(0, i + 1 - from);
        proof {
            assert(cur.drop_last() =~= prev);
            assert(cur.last() == c);
            assert(all_digits(cur));
        }
        if acc > (u64::MAX - d) / 10 {
            // The value no longer fits in a `u64`, and appending further
            // digits can only grow it.
            proof {
                assert(dec_val(cur) > u64::MAX as int);
                if all_digits(t) {
                    lemma_dec_val_prefix(t, i + 1 - from);
                }
            }
            return None;
        }
        acc = acc * 10 + d;
        i = i + 1;
    }
    proof {
        assert(t.subrange(0, to - from) =~= t);
    }
    Some(acc)
}

// ---------------------------------------------------------------------------
// Signed numerals
// ---------------------------------------------------------------------------

/// Decimal numeral of a signed number: a `-` sign followed by the magnitude.
pub open spec fn spec_dec_i64(t: int) -> Seq<char> {
    if t < 0 {
        seq!['-'] + spec_dec((-t) as nat)
    } else {
        spec_dec(t as nat)
    }
}

/// The meaning of a token as a signed number.
pub open spec fn token_i64(t: Seq<char>) -> Option<i64> {
    if t.len() >= 1 && t[0] == '-' {
        match token_u64(t.skip(1)) {
            Some(m) => if m <= 0x8000_0000_0000_0000u64 && m > 0 {
                Some((-(m as int)) as i64)
            } else {
                None
            },
            None => None,
        }
    } else {
        match token_u64(t) {
            Some(m) => if m <= i64::MAX as u64 {
                Some(m as i64)
            } else {
                None
            },
            None => None,
        }
    }
}

/// Signed numerals round-trip through `token_i64`.
pub proof fn lemma_token_of_dec_i64(t: i64)
    ensures
        token_i64(spec_dec_i64(t as int)) == Some(t),
{
    if t >= 0 {
        lemma_token_of_dec(t as u64);
        lemma_spec_dec_props(t as nat);
        assert(!is_digit('-'));
        assert(spec_dec_i64(t as int)[0] != '-');
    } else {
        let m = (-(t as int)) as u64;
        lemma_token_of_dec(m);
        let s = spec_dec_i64(t as int);
        assert(s[0] == '-');
        assert(s.skip(1) =~= spec_dec(m as nat));
    }
}

/// Appends the decimal numeral of `t` to `out`.
pub fn push_dec_i64(t: i64, out: &mut Vec<char>)
    ensures
        final(out)@ == old(out)@ + spec_dec_i64(t as int),
{
    if t >= 0 {
        push_dec(t as u64, out);
    } else {
        out.push('-');
        let m: u64 = ((-(t + 1)) as u64) + 1;
        assert(m == -(t as int));
        push_dec(m, out);
        assert(out@ =~= old(out)@ + spec_dec_i64(t as int));
    }
}

/// Reads the token `s[from..to]` as a signed number.
pub fn parse_i64_token(s: &Vec<char>, from: usize, to: usize) -> (r: Option<i64>)
    requires
        from <= to <= s.len(),
    ensures
        r == token_i64(s@.subrange(from as int, to as int)),
{
    let ghost t = s@.subrange(from as int, to as int);
    if from < to && s[from] == '-' {
        proof {
            assert(t.skip(1) =~= s@.subrange(from as int + 1, to as int));
        }
        match parse_u64_token(s, from + 1, to) {
            Some(m) => {
                if m <= 0x8000_0000_0000_0000u64 && m > 0 {
                    let r: i64 = if m == 0x8000_0000_0000_0000u64 {
                        i64::MIN
                    } else {
                        -(m as i64)
                    };
                    assert(r as int == -(m as int));
                    Some(r)
                } else {
                    None
                }
            },
            None => None,
        }
    } else {
        match parse_u64_token(s, from, to) {
            Some(m) => {
                if m <= i64::MAX as u64 {
                    Some(m as i64)
                } else {
                    None
                }
            },
            None => None,
        }
    }
}

// ---------------------------------------------------------------------------
// Name escaping
// ---------------------------------------------------------------------------

/// How a single character is written inside a journal line: backslash,
/// newline and carriage return are escaped so that an encoded record never
/// spans or breaks a line.
pub open spec fn esc_char(c: char) -> Seq<char> {
    if c == '\\' {
        seq!['\\', '\\']
    } else if c == '\n' {
        seq!['\\', 'n']
    } else if c == '\r' {
        seq!['\\', 'r']
    } else {
        seq![c]
    }
}

/// The escaped form of a string.
pub open spec fn esc(s: Seq<char>) -> Seq<char>
    decreases s.len(),
{
    if s.len() == 0 {
        Seq::empty()
    } else {
        esc_char(s[0]) + esc(s.skip(1))
    }
}

/// The string an escaped form stands for, if it is well-formed.
pub open spec fn unesc(s: Seq<char>) -> Option<Seq<char>>
    decreases s.len(),
{
    if s.len() == 0 {
        Some(Seq::empty())
    } else if s[0] == '\\' {
        if s.len() < 2 {
            None
        } else {
            let decoded = if s[1] == '\\' {
                Some('\\')
            } else if s[1] == 'n' {
                Some('\n')
            } else if s[1] == 'r' {
                Some('\r')
            } else {
                None
            };
            match decoded {
                Some(c) => match unesc(s.skip(2)) {
                    Some(rest) => Some(seq![c] + rest),
                    None => None,
                },
                None => None,
            }
        }
    } else {
        match unesc(s.skip(1)) {
            Some(rest) => Some(seq![s[0]] + rest),
            None => None,
        }
    }
}

/// The escaped form of a single character.
pub proof fn lemma_esc_singleton(c: char)
    ensures
        esc(seq![c]) == esc_char(c),
{
    let s = seq![c];
    assert(s.len() == 1);
    assert(s[0] == c);
    assert(s.skip(1) =~= Seq::<char>::empty());
    assert(esc(s) == esc_char(c) + esc(s.skip(1)));
    assert(esc(s.skip(1)) == Seq::<char>::empty());
    assert(esc_char(c) + Seq::<char>::empty() =~= esc_char(c));
}

/// Escaping distributes over concatenation.
pub proof fn lemma_esc_append(a: Seq<char>, b: Seq<char>)
    ensures
        esc(a + b) == esc(a) + esc(b),
    decreases a.len(),
{
    if a.len() == 0 {
        assert(a + b =~= b);
        assert(esc(a) + esc(b) =~= esc(b));
    } else {
        lemma_esc_append(a.skip(1), b);
        assert((a + b).skip(1) =~= a.skip(1) + b);
        assert(esc(a + b) =~= esc(a) + esc(b));
    }
}

/// Escaping never loses information: unescaping gives the string back.
pub proof fn lemma_unesc_esc(s: Seq<char>)
    ensures
        unesc(esc(s)) == Some(s),
    decreases s.len(),
{
    if s.len() > 0 {
        lemma_unesc_esc(s.skip(1));
        let t = esc(s);
        let c = s[0];
        if c == '\\' || c == '\n' || c == '\r' {
            assert(t.len() >= 2);
            assert(t.skip(2) =~= esc(s.skip(1)));
            assert(seq![c] + s.skip(1) =~= s);
        } else {
            assert(t[0] == c);
            assert(t.skip(1) =~= esc(s.skip(1)));
            assert(seq![c] + s.skip(1) =~= s);
        }
    }
}

/// An escaped string contains no line breaks.
pub proof fn lemma_esc_no_newline(s: Seq<char>)
    ensures
        forall|i: int| 0 <= i < esc(s).len() ==> #[trigger] esc(s)[i] != '\n' && esc(s)[i] != '\r',
    decreases s.len(),
{
    if s.len() > 0 {
        lemma_esc_no_newline(s.skip(1));
        let e0 = esc_char(s[0]);
        let rest = esc(s.skip(1));
        assert forall|i: int| 0 <= i < esc(s).len() implies #[trigger] esc(s)[i] != '\n'
            && esc(s)[i] != '\r' by {
            assert(esc(s) == e0 + rest);
            if i < e0.len() {
                assert(esc(s)[i] == e0[i]);
            } else {
                assert(esc(s)[i] == rest[i - e0.len()]);
            }
        }
    }
}

/// Appends the escaped form of `v` to `out`.
pub fn push_escaped(v: &Vec<char>, out: &mut Vec<char>)
    ensures
        final(out)@ == old(out)@ + esc(v@),
{
    let mut i: usize = 0;
    while i < v.len()
        invariant
            i <= v.len(),
            out@ == old(out)@ + esc(v@.take(i as int)),
        decreases v.len() - i,
    {
        let c = v[i];
        if c == '\\' {
            out.push('\\');
            out.push('\\');
        } else if c == '\n' {
            out.push('\\');
            out.push('n');
        } else if c == '\r' {
            out.push('\\');
            out.push('r');
        } else {
            out.push(c);
        }
        proof {
            let pre = v@.take(i as int);
            let cur = v@.take(i as int + 1);
            assert(cur =~= pre + seq![v@[i as int]]);
            lemma_esc_append(pre, seq![v@[i as int]]);
            lemma_esc_singleton(v@[i as int]);
            assert(out@ =~= old(out)@ + esc(cur));
        }
        i = i + 1;
    }
    proof {
        assert(v@.take(v@.len() as int) =~= v@);
    }
}

/// Unescapes `s[from..to]`; `None` when that range is not a well-formed
/// escaped string.
pub fn unescape_range(s: &Vec<char>, from: usize, to: usize) -> (r: Option<Vec<char>>)
    requires
        from <= to <= s.len(),
    ensures
        match r {
            Some(v) => unesc(s@.subrange(from as int, to as int)) == Some(v@),
            None => unesc(s@.subrange(from as int, to as int)) is None,
        },
{
    let ghost whole = s@.subrange(from as int, to as int);
    let mut out: Vec<char> = Vec::new();
    let mut i = from;
    while i < to
        invariant
            from <= i <= to <= s.len(),
            whole == s@.subrange(from as int, to as int),
            match unesc(s@.subrange(i as int, to as int)) {
                Some(t) => unesc(whole) == Some(out@ + t),
                None => unesc(whole) is None,
            },
        decreases to - i,
    {
        let c = s[i];
        let ghost tail = s@.subrange(i as int, to as int);
        if c == '\\' {
            if i + 1 == to {
                assert(tail.len() == 1);
                return None;
            }
            let e = s[i + 1];
            assert(tail[1] == e);
            proof {
                assert(tail.skip(2) =~= s@.subrange(i as int + 2, to as int));
            }
            if e == '\\' {
                out.push('\\');
            } else if e == 'n' {
                out.push('\n');
            } else if e == 'r' {
                out.push('\r');
            } else {
                return None;
            }
            proof {
                let dc = out@.last();
                if unesc(s@.subrange(i as int + 2, to as int)) is Some {
                    let t2 = unesc(s@.subrange(i as int + 2, to as int)).unwrap();
                    assert(unesc(tail) == Some(seq![dc] + t2));
                    assert(out@ + t2 =~= out@.drop_last() + (seq![dc] + t2));
                }
            }
            i = i + 2;
        } else {
            out.push(c);
            proof {
                assert(tail.skip(1) =~= s@.subrange(i as int + 1, to as int));
                if unesc(s@.subrange(i as int + 1, to as int)) is Some {
                    let t2 = unesc(s@.subrange(i as int + 1, to as int)).unwrap();
                    assert(unesc(tail) == Some(seq![c] + t2));
                    assert(out@ + t2 =~= out@.drop_last() + (seq![c] + t2));
                }
            }
            i = i + 1;
        }
    }
    proof {
        assert(s@.subrange(to as int, to as int) =~= Seq::<char>::empty());
        assert(out@ + Seq::<char>::empty() =~= out@);
    }
    Some(out)
}

// ---------------------------------------------------------------------------
// String conversions
// ---------------------------------------------------------------------------

/// Relies on std's `String::push`, which appends the given character to the
/// end of the string.
pub assume_specification[ String::push ](s: &mut String, c: char)
    ensures
        final(s)@ == old(s)@.push(c),
;

/// Collects a character vector into a `String` with the same characters.
pub fn chars_to_string(v: &Vec<char>) -> (s: String)
    ensures
        s@ == v@,
{
    let mut s = String::new();
    let mut i: usize = 0;
    while i < v.len()
        invariant
            i <= v.len(),
            s@ == v@.take(i as int),
        decreases v.len() - i,
    {
        s.push(v[i]);
        proof {
            assert(v@.take(i as int + 1) =~= v@.take(i as int).push(v@[i as int]));
        }
        i = i + 1;
    }
    proof {
        assert(v@.take(v@.len() as int) =~= v@);
    }
    s
}

/// Collects the characters of a string slice into a vector.
pub fn str_to_chars(s: &str) -> (v: Vec<char>)
    ensures
        v@ == s@,
{
    broadcast use vstd::string::group_string_axioms;

    let mut it = s.chars();
    let mut v: Vec<char> = Vec::new();
    loop
        invariant_except_break
            it.obeys_prophetic_iter_laws(),
            it.decrease() is Some,
            v@ + it.remaining() == s@,
        ensures
            v@ == s@,
        decreases it.decrease()->0,
    {
        let ghost pre = it.remaining();
        match it.next() {
            Some(c) => {
                v.push(c);
                proof {
                    assert(v@ + it.remaining() =~= v@.drop_last() + pre);
                }
            },
            None => {
                proof {
                    assert(pre.len() == 0);
                    assert(v@ =~= v@ + pre);
                }
                break;
            },
        }
    }
    v
}

/// Compares a character vector against a string slice.
pub fn chars_eq_str(v: &Vec<char>, s: &str) -> (r: bool)
    ensures
        r == (v@ == s@),
{
    let n = s.unicode_len();
    if v.len() != n {
        return false;
    }
    let mut i: usize = 0;
    while i < n
        invariant
            i <= n,
            n == s@.len() == v@.len(),
            forall|j: int| 0 <= j < i ==> v@[j] == s@[j],
        decreases n - i,
    {
        if v[i] != s.get_char(i) {
            return false;
        }
        i = i + 1;
    }
    proof {
        assert(v@ =~= s@);
    }
    true
}

} // verus!
