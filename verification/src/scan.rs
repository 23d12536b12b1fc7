use crate::error::{ParseError, ParseErrorKind};
use vstd::prelude::*;

verus! {

/// The classes of characters that the grammar consumes in maximal runs.
#[derive(Clone, Copy, Debug, PartialEq, Eq)]
pub enum CharClass {
    /// A hexadecimal digit or the blank that may separate digit groups.
    HexSpace,
    /// Horizontal whitespace inside a body line: blank or tab.
    Horizontal,
    /// Padding inside a label line: blank, tab, carriage return or line feed.
    Padding,
    /// An ASCII letter, the only kind of character allowed in a label name.
    Alphabetic,
    /// A character that may stand in a comment: anything but a line terminator.
    CommentChar,
}

/// ASCII hexadecimal digits, upper or lower case.
pub open spec fn is_hex_digit_char(c: char) -> bool {
    (48 <= c as u32 && c as u32 <= 57) || (65 <= c as u32 && c as u32 <= 70) || (97 <= c as u32
        && c as u32 <= 102)
}

pub open spec fn in_class(cl: CharClass, c: char) -> bool {
    match cl {
        CharClass::HexSpace => is_hex_digit_char(c) || c == ' ',
        CharClass::Horizontal => c == ' ' || c == '\t',
        CharClass::Padding => c == ' ' || c == '\t' || c == '\r' || c == '\n',
        CharClass::Alphabetic => (65 <= c as u32 && c as u32 <= 90) || (97 <= c as u32 && c
            as u32 <= 122),
        CharClass::CommentChar => c != '\r' && c != '\n',
    }
}

/// Where the maximal run of `cl` characters that starts at `pos` ends.
pub open spec fn span_end(cl: CharClass, s: Seq<char>, pos: int) -> int
    decreases s.len() - pos,
    when 0 <= pos <= s.len()
{
    if pos < s.len() && in_class(cl, s[pos]) {
        span_end(cl, s, pos + 1)
    } else {
        pos
    }
}

pub proof fn lemma_span_end(cl: CharClass, s: Seq<char>, pos: int)
    requires
        0 <= pos <= s.len(),
    ensures
        pos <= span_end(cl, s, pos) <= s.len(),
        forall|i: int| pos <= i < span_end(cl, s, pos) ==> in_class(cl, s[i]),
        span_end(cl, s, pos) < s.len() ==> !in_class(cl, s[span_end(cl, s, pos)]),
    decreases s.len() - pos,
{
    if pos < s.len() && in_class(cl, s[pos]) {
        lemma_span_end(cl, s, pos + 1);
    }
}

/// A run made wholly of `cl` characters extends to the end of the input.
pub proof fn lemma_span_end_full(cl: CharClass, s: Seq<char>, pos: int)
    requires
        0 <= pos <= s.len(),
        forall|i: int| pos <= i < s.len() ==> in_class(cl, s[i]),
    ensures
        span_end(cl, s, pos) == s.len(),
    decreases s.len() - pos,
{
    if pos < s.len() {
        lemma_span_end_full(cl, s, pos + 1);
    }
}

pub fn class_test(cl: CharClass, c: char) -> (b: bool)
    ensures
        b == in_class(cl, c),
{
    let u = c as u32;
    match cl {
        CharClass::HexSpace => (48 <= u && u <= 57) || (65 <= u && u <= 70) || (97 <= u && u
            <= 102) || c == ' ',
        CharClass::Horizontal => c == ' ' || c == '\t',
        CharClass::Padding => c == ' ' || c == '\t' || c == '\r' || c == '\n',
        CharClass::Alphabetic => (65 <= u && u <= 90) || (97 <= u && u <= 122),
        CharClass::CommentChar => c != '\r' && c != '\n',
    }
}

/// Advances over the maximal run of `cl` characters that starts at `pos`.
pub fn span_scan(input: &str, pos: usize, cl: CharClass) -> (end: usize)
    requires
        pos as int <= input@.len(),
    ensures
        end as int == span_end(cl, input@, pos as int),
        pos <= end && end as int <= input@.len(),
{
    let len = input.unicode_len();
    let mut i: usize = pos;
    while i < len && class_test(cl, input.get_char(i))
        invariant
            pos <= i <= len,
            len as int == input@.len(),
            span_end(cl, input@, pos as int) == span_end(cl, input@, i as int),
        decreases len - i,
    {
        i = i + 1;
    }
    i
}

/// Whether the text `t` occurs in `s` at position `pos`.
pub open spec fn matches_at(s: Seq<char>, pos: int, t: Seq<char>) -> bool {
    0 <= pos && pos + t.len() <= s.len() && s.subrange(pos, pos + t.len() as int) == t
}

pub fn match_lit(input: &str, pos: usize, lit: &str) -> (b: bool)
    requires
        pos as int <= input@.len(),
    ensures
        b == matches_at(input@, pos as int, lit@),
{
    let len = input.unicode_len();
    let n = lit.unicode_len();
    if n > len - pos {
        return false;
    }
    let mut k: usize = 0;
    while k < n
        invariant
            0 <= k <= n,
            pos + n <= len,
            len as int == input@.len(),
            n as int == lit@.len(),
            forall|m: int| 0 <= m < k ==> input@[pos + m] == lit@[m],
        decreases n - k,
    {
        if input.get_char(pos + k) != lit.get_char(k) {
            proof {
                let sub = input@.subrange(pos as int, pos as int + n as int);
                assert(sub.len() == n);
                assert(sub[k as int] == input@[pos + k]);
            }
            return false;
        }
        k = k + 1;
    }
    proof {
        assert(input@.subrange(pos as int, pos as int + n as int) =~= lit@);
    }
    true
}

/// Recognizes a line terminator: either carriage return plus line feed, or a
/// bare line feed. Returns the position just past it.
pub open spec fn spec_eol(s: Seq<char>, pos: int) -> Option<int> {
    if pos + 2 <= s.len() && s[pos] == '\r' && s[pos + 1] == '\n' {
        Some(pos + 2)
    } else if pos + 1 <= s.len() && s[pos] == '\n' {
        Some(pos + 1)
    } else {
        None
    }
}

pub fn eol(input: &str, pos: usize) -> (r: Option<usize>)
    requires
        pos as int <= input@.len(),
    ensures
        match r {
            Some(p) => spec_eol(input@, pos as int) == Some(p as int),
            None => spec_eol(input@, pos as int) is None,
        },
{
    let len = input.unicode_len();
    if len - pos >= 2 && input.get_char(pos) == '\r' && input.get_char(pos + 1) == '\n' {
        Some(pos + 2)
    } else if len - pos >= 1 && input.get_char(pos) == '\n' {
        Some(pos + 1)
    } else {
        None
    }
}

/// The characters of `s` with every blank removed, in their original order.
pub open spec fn strip_blanks(s: Seq<char>) -> Seq<char>
    decreases s.len(),
{
    if s.len() == 0 {
        Seq::empty()
    } else {
        let rest = strip_blanks(s.drop_last());
        if s.last() == ' ' {
            rest
        } else {
            rest.push(s.last())
        }
    }
}

/// The value of a hexadecimal digit, or zero for any other character.
pub open spec fn hex_digit_value(c: char) -> u32 {
    if 48 <= c as u32 && c as u32 <= 57 {
        (c as u32 - 48) as u32
    } else if 65 <= c as u32 && c as u32 <= 70 {
        (c as u32 - 55) as u32
    } else if 97 <= c as u32 && c as u32 <= 102 {
        (c as u32 - 87) as u32
    } else {
        0
    }
}

/// The unsigned value of a digit string read in base sixteen.
pub open spec fn hex_value(digits: Seq<char>) -> nat
    decreases digits.len(),
{
    if digits.len() == 0 {
        0
    } else {
        hex_value(digits.drop_last()) * 16 + hex_digit_value(digits.last()) as nat
    }
}

pub open spec fn all_hex_digits(digits: Seq<char>) -> bool {
    forall|i: int| 0 <= i < digits.len() ==> is_hex_digit_char(#[trigger] digits[i])
}

/// Removing blanks keeps exactly the non-blank characters: the result is
/// empty precisely when every character is a blank, and it is made of
/// hexadecimal digits precisely when every non-blank character is one.
pub proof fn lemma_strip_blanks_chars(s: Seq<char>)
    ensures
        strip_blanks(s).len() == 0 <==> (forall|i: int| 0 <= i < s.len() ==> s[i] == ' '),
        all_hex_digits(strip_blanks(s)) <==> (forall|i: int|
            0 <= i < s.len() && s[i] != ' ' ==> is_hex_digit_char(#[trigger] s[i])),
    decreases s.len(),
{
    if s.len() > 0 {
        let u = s.drop_last();
        lemma_strip_blanks_chars(u);
        assert(forall|i: int| 0 <= i < u.len() ==> u[i] == s[i]);
        if s.last() == ' ' {
            assert(strip_blanks(s) == strip_blanks(u));
        } else {
            let st = strip_blanks(s);
            assert(st == strip_blanks(u).push(s.last()));
            assert(st.len() > 0);
            if all_hex_digits(st) {
                assert forall|i: int| 0 <= i < strip_blanks(u).len() implies is_hex_digit_char(
                    #[trigger] strip_blanks(u)[i],
                ) by {
                    assert(strip_blanks(u)[i] == st[i]);
                    assert(is_hex_digit_char(st[i]));
                }
                assert(all_hex_digits(strip_blanks(u)));
                assert(st[st.len() - 1] == s.last());
            }
            if (forall|i: int| 0 <= i < s.len() && s[i] != ' ' ==> is_hex_digit_char(
                #[trigger] s[i],
            )) {
                assert forall|i: int| 0 <= i < st.len() implies is_hex_digit_char(
                    #[trigger] st[i],
                ) by {
                    if i < st.len() - 1 {
                        assert(st[i] == strip_blanks(u)[i]);
                    } else {
                        assert(st[i] == s[s.len() - 1]);
                    }
                }
            }
        }
    }
}

/// Reading more digits can only keep the value or make it grow.
pub proof fn lemma_strip_prefix_le(s: Seq<char>, k: int)
    requires
        0 <= k <= s.len(),
    ensures
        hex_value(strip_blanks(s.subrange(0, k))) <= hex_value(strip_blanks(s)),
    decreases s.len() - k,
{
    if k == s.len() {
        assert(s.subrange(0, k) =~= s);
    } else {
        let a = s.subrange(0, k);
        let b = s.subrange(0, k + 1);
        assert(b.drop_last() =~= a);
        assert(b.last() == s[k]);
        if s[k] == ' ' {
            assert(strip_blanks(b) == strip_blanks(a));
        } else {
            assert(strip_blanks(b) == strip_blanks(a).push(s[k]));
            let va = hex_value(strip_blanks(a));
            assert(strip_blanks(b).drop_last() =~= strip_blanks(a));
            assert(hex_value(strip_blanks(b)) == va * 16 + hex_digit_value(s[k]) as nat);
        }
        lemma_strip_prefix_le(s, k + 1);
    }
}

pub fn hex_digit_val(c: char) -> (v: u32)
    ensures
        v == hex_digit_value(c),
        v < 16,
{
    let u = c as u32;
    if 48 <= u && u <= 57 {
        u - 48
    } else if 65 <= u && u <= 70 {
        u - 55
    } else if 97 <= u && u <= 102 {
        u - 87
    } else {
        0
    }
}

/// Reads a whole string of hexadecimal digits, possibly interleaved with
/// blanks, as one unsigned 32-bit value. Fails when no digit is present,
/// when a character other than a digit or blank occurs, or when the value
/// exceeds the 32-bit range.
pub fn hex_to_int(input: &str) -> (r: Result<u32, ParseError>)
    ensures
        match r {
            Ok(v) => strip_blanks(input@).len() > 0 && all_hex_digits(strip_blanks(input@))
                && hex_value(strip_blanks(input@)) <= u32::MAX && v as nat == hex_value(
                strip_blanks(input@),
            ),
            Err(e) => (strip_blanks(input@).len() == 0 || !all_hex_digits(strip_blanks(input@))
                || hex_value(strip_blanks(input@)) > u32::MAX) && e.kind
                == ParseErrorKind::InvalidHex && e.position == 0,
        },
{
    let len = input.unicode_len();
    let mut i: usize = 0;
    let mut val: u64 = 0;
    let mut any: bool = false;
    while i < len
        invariant
            0 <= i <= len,
            len as int == input@.len(),
            val as nat == hex_value(strip_blanks(input@.subrange(0, i as int))),
            val <= u32::MAX as u64,
            any <==> strip_blanks(input@.subrange(0, i as int)).len() > 0,
            all_hex_digits(strip_blanks(input@.subrange(0, i as int))),
        decreases len - i,
    {
        let c = input.get_char(i);
        proof {
            assert(input@.subrange(0, i as int + 1).drop_last() =~= input@.subrange(0, i as int));
            assert(input@.subrange(0, i as int + 1).last() == input@[i as int]);
        }
        if c == ' ' {
            assert(strip_blanks(input@.subrange(0, i as int + 1)) == strip_blanks(
                input@.subrange(0, i as int),
            ));
        } else if class_test(CharClass::HexSpace, c) {
            let d = hex_digit_val(c);
            let nv = val * 16 + d as u64;
            proof {
                assert(strip_blanks(input@.subrange(0, i as int + 1)) == strip_blanks(
                    input@.subrange(0, i as int),
                ).push(c));
                assert(strip_blanks(input@.subrange(0, i as int + 1)).drop_last() =~= strip_blanks(
                    input@.subrange(0, i as int),
                ));
                assert(hex_value(strip_blanks(input@.subrange(0, i as int + 1))) == nv as nat);
            }
            if nv > 0xFFFF_FFFFu64 {
                proof {
                    lemma_strip_prefix_le(input@, i as int + 1);
                }
                return Err(ParseError { kind: ParseErrorKind::InvalidHex, position: 0 });
            }
            val = nv;
            any = true;
        } else {
            proof {
                lemma_strip_blanks_chars(input@);
            }
            return Err(ParseError { kind: ParseErrorKind::InvalidHex, position: 0 });
        }
        i = i + 1;
    }
    proof {
        assert(input@.subrange(0, len as int) =~= input@);
    }
    if !any {
        return Err(ParseError { kind: ParseErrorKind::InvalidHex, position: 0 });
    }
    Ok(val as u32)
}

/// What the hexadecimal scanner recognizes at `pos`: the maximal run of
/// digits and blanks, read as one unsigned 32-bit value.
pub open spec fn spec_hex(s: Seq<char>, pos: int) -> Result<(u32, int), (ParseErrorKind, int)> {
    let end = span_end(CharClass::HexSpace, s, pos);
    let digits = strip_blanks(s.subrange(pos, end));
    if digits.len() == 0 || hex_value(digits) > u32::MAX {
        Err((ParseErrorKind::InvalidHex, pos))
    } else {
        Ok((hex_value(digits) as u32, end))
    }
}

/// Scans the maximal run of hexadecimal digits and blanks that starts at
/// `pos` and reads it as one unsigned 32-bit value.
pub fn hex(input: &str, pos: usize) -> (r: Result<(u32, usize), ParseError>)
    requires
        pos as int <= input@.len(),
    ensures
        match r {
            Ok((v, p)) => spec_hex(input@, pos as int) == Ok::<(u32, int), (ParseErrorKind, int)>(
                (v, p as int),
            ),
            Err(e) => spec_hex(input@, pos as int) == Err::<(u32, int), (ParseErrorKind, int)>(
                (e.kind, e.position as int),
            ),
        },
{
    let end = span_scan(input, pos, CharClass::HexSpace);
    let sub = input.substring_char(pos, end);
    proof {
        lemma_span_end(CharClass::HexSpace, input@, pos as int);
        lemma_strip_blanks_chars(sub@);
        assert forall|i: int| 0 <= i < sub@.len() && sub@[i] != ' ' implies is_hex_digit_char(
            #[trigger] sub@[i],
        ) by {
            assert(sub@[i] == input@[pos + i]);
            assert(in_class(CharClass::HexSpace, input@[pos + i]));
        }
        assert(all_hex_digits(strip_blanks(sub@)));
    }
    match hex_to_int(sub) {
        Ok(v) => Ok((v, end)),
        Err(_) => Err(ParseError { kind: ParseErrorKind::InvalidHex, position: pos }),
    }
}

/// The character that renders one hexadecimal digit in upper case.
pub open spec fn hex_digit_char(d: nat) -> char {
    if d == 0 {
        '0'
    } else if d == 1 {
        '1'
    } else if d == 2 {
        '2'
    } else if d == 3 {
        '3'
    } else if d == 4 {
        '4'
    } else if d == 5 {
        '5'
    } else if d == 6 {
        '6'
    } else if d == 7 {
        '7'
    } else if d == 8 {
        '8'
    } else if d == 9 {
        '9'
    } else if d == 10 {
        'A'
    } else if d == 11 {
        'B'
    } else if d == 12 {
        'C'
    } else if d == 13 {
        'D'
    } else if d == 14 {
        'E'
    } else {
        'F'
    }
}

/// The uppercase hexadecimal rendering of `v`, most significant digit
/// first, with no leading zeroes (zero itself renders as one `'0'`).
pub open spec fn uppercase_hex(v: nat) -> Seq<char>
    decreases v,
{
    if v < 16 {
        seq![hex_digit_char(v)]
    } else {
        uppercase_hex(v / 16).push(hex_digit_char(v % 16))
    }
}

pub proof fn lemma_hex_digit_char_value(d: nat)
    requires
        d < 16,
    ensures
        is_hex_digit_char(hex_digit_char(d)),
        hex_digit_char(d) != ' ',
        hex_digit_value(hex_digit_char(d)) as nat == d,
{
}

pub proof fn lemma_uppercase_hex_chars(v: nat)
    ensures
        uppercase_hex(v).len() > 0,
        forall|i: int| 0 <= i < uppercase_hex(v).len() ==> is_hex_digit_char(
            #[trigger] uppercase_hex(v)[i],
        ) && uppercase_hex(v)[i] != ' ',
    decreases v,
{
    if v < 16 {
        lemma_hex_digit_char_value(v);
    } else {
        lemma_uppercase_hex_chars(v / 16);
        lemma_hex_digit_char_value(v % 16);
        assert forall|i: int| 0 <= i < uppercase_hex(v).len() implies is_hex_digit_char(
            #[trigger] uppercase_hex(v)[i],
        ) && uppercase_hex(v)[i] != ' ' by {
            if i < uppercase_hex(v).len() - 1 {
                assert(uppercase_hex(v)[i] == uppercase_hex(v / 16)[i]);
            }
        }
    }
}

pub proof fn lemma_uppercase_hex_value(v: nat)
    ensures
        hex_value(uppercase_hex(v)) == v,
    decreases v,
{
    let s = uppercase_hex(v);
    assert(s.len() > 0);
    assert(hex_value(s) == hex_value(s.drop_last()) * 16 + hex_digit_value(s.last()) as nat);
    if v < 16 {
        lemma_hex_digit_char_value(v);
        assert(s.drop_last() =~= Seq::<char>::empty());
        assert(hex_value(s.drop_last()) == 0);
        assert(s.last() == hex_digit_char(v));
    } else {
        lemma_uppercase_hex_value(v / 16);
        lemma_hex_digit_char_value(v % 16);
        assert(s.drop_last() =~= uppercase_hex(v / 16));
        assert(hex_value(s.drop_last()) == v / 16);
        assert(s.last() == hex_digit_char(v % 16));
        assert(hex_digit_value(s.last()) as nat == v % 16);
        vstd::arithmetic::div_mod::lemma_fundamental_div_mod(v as int, 16);
    }
}

/// A string without blanks passes through the blank-stripper unchanged.
pub proof fn lemma_strip_blanks_identity(s: Seq<char>)
    requires
        forall|i: int| 0 <= i < s.len() ==> #[trigger] s[i] != ' ',
    ensures
        strip_blanks(s) == s,
    decreases s.len(),
{
    if s.len() > 0 {
        lemma_strip_blanks_identity(s.drop_last());
        assert(strip_blanks(s) =~= s);
    }
}

/// Round trip over the full 32-bit range: the hexadecimal scanner, applied
/// to the uppercase hexadecimal rendering of any unsigned 32-bit value,
/// accepts the whole rendering and yields exactly that value back.
pub proof fn lemma_hex_render_round_trip(v: u32)
    ensures
        spec_hex(uppercase_hex(v as nat), 0) == Ok::<(u32, int), (ParseErrorKind, int)>(
            (v, uppercase_hex(v as nat).len() as int),
        ),
{
    let s = uppercase_hex(v as nat);
    lemma_uppercase_hex_chars(v as nat);
    lemma_uppercase_hex_value(v as nat);
    assert(forall|i: int| 0 <= i < s.len() ==> in_class(CharClass::HexSpace, #[trigger] s[i]));
    lemma_span_end_full(CharClass::HexSpace, s, 0);
    assert(s.subrange(0, s.len() as int) =~= s);
    lemma_strip_blanks_identity(s);
}

/// Captures the rest of the physical line: everything up to, but not
/// including, the next carriage return or line feed. Always succeeds.
pub fn comment<'a>(input: &'a str, pos: usize) -> (r: (&'a str, usize))
    requires
        pos as int <= input@.len(),
    ensures
        r.1 as int == span_end(CharClass::CommentChar, input@, pos as int),
        r.0@ == input@.subrange(pos as int, r.1 as int),
        pos <= r.1 && r.1 as int <= input@.len(),
{
    let end = span_scan(input, pos, CharClass::CommentChar);
    let text = input.substring_char(pos, end);
    (text, end)
}

} // verus!
