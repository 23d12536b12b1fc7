use crate::error::{ParseError, ParseErrorKind};
use crate::scan::{
    hex_digit_val, hex_digit_value, in_class, is_hex_digit_char, lemma_span_end, span_end,
    span_scan, strip_blanks, CharClass,
};
use vstd::prelude::*;

verus! {

/// The decoded contents of one body record.
#[derive(Clone, Debug, PartialEq, Eq)]
pub enum Word {
    /// An instruction, exactly four bytes, already flipped into natural
    /// byte order (the dump stores instruction words back to front).
    Instruction { instruction: [u8; 4] },
    /// A raw byte dump, kept in the order encountered.
    Data { data: Vec<u8> },
}

/// The mathematical shape of a [`Word`].
pub enum WordModel {
    Instruction { bytes: Seq<u8> },
    Data { bytes: Seq<u8> },
}

impl View for Word {
    type V = WordModel;

    open spec fn view(&self) -> WordModel {
        match self {
            Word::Instruction { instruction } => WordModel::Instruction { bytes: instruction@ },
            Word::Data { data } => WordModel::Data { bytes: data@ },
        }
    }
}

impl DeepView for Word {
    type V = WordModel;

    open spec fn deep_view(&self) -> WordModel {
        self.view()
    }
}

/// An instruction word always carries exactly four bytes.
pub open spec fn word_model_wf(w: WordModel) -> bool {
    match w {
        WordModel::Instruction { bytes } => bytes.len() == 4,
        WordModel::Data { bytes } => true,
    }
}

/// The shape invariant holds of every value the executable type can take.
pub proof fn lemma_word_wf(w: &Word)
    ensures
        word_model_wf(w@),
{
}

/// `s` with its trailing blanks removed.
pub open spec fn trim_end_blanks(s: Seq<char>) -> Seq<char>
    decreases s.len(),
{
    if s.len() > 0 && s.last() == ' ' {
        trim_end_blanks(s.drop_last())
    } else {
        s
    }
}

/// The digit string read in non-overlapping pairs, each pair one byte,
/// left to right.
pub open spec fn bytes_of_pairs(d: Seq<char>) -> Seq<u8>
    decreases d.len(),
{
    if d.len() < 2 {
        Seq::empty()
    } else {
        bytes_of_pairs(d.drop_last().drop_last()).push(
            (hex_digit_value(d[d.len() - 2]) * 16 + hex_digit_value(d[d.len() - 1])) as u8,
        )
    }
}

/// Eight adjacent characters of `s`, starting at `a`, none of them a blank.
pub open spec fn window_clear(s: Seq<char>, a: int) -> bool {
    forall|m: int| a <= m < a + 8 ==> #[trigger] s[m] != ' '
}

/// The classification rule: a hex span denotes an instruction exactly when
/// some window of eight contiguous characters contains no blank.
pub open spec fn is_instruction_layout(t: Seq<char>) -> bool {
    exists|a: int| 0 <= a && a + 8 <= t.len() && window_clear(t, a)
}

/// What the word decoder recognizes at `pos`: the maximal run of
/// hexadecimal digits and blanks, trimmed of trailing blanks, classified
/// by the window rule and decoded bytewise.
pub open spec fn spec_word(s: Seq<char>, pos: int) -> Result<(WordModel, int), (
    ParseErrorKind,
    int,
)> {
    let end = span_end(CharClass::HexSpace, s, pos);
    let t = trim_end_blanks(s.subrange(pos, end));
    let d = strip_blanks(t);
    if d.len() % 2 == 1 {
        Err((ParseErrorKind::InvalidHex, pos))
    } else {
        let bs = bytes_of_pairs(d);
        if is_instruction_layout(t) {
            if bs.len() == 4 {
                Ok(
                    (
                        WordModel::Instruction {
                            bytes: seq![bs[3], bs[2], bs[1], bs[0]],
                        },
                        end,
                    ),
                )
            } else {
                Err((ParseErrorKind::MalformedWord, pos))
            }
        } else {
            Ok((WordModel::Data { bytes: bs }, end))
        }
    }
}

/// Some run of eight adjacent non-blank characters lies between `lo` and `hi`.
pub open spec fn clear_window_in(s: Seq<char>, lo: int, hi: int) -> bool {
    exists|a: int| lo <= a && a + 8 <= hi && window_clear(s, a)
}

pub proof fn lemma_layout_subrange(s: Seq<char>, lo: int, hi: int)
    requires
        0 <= lo <= hi <= s.len(),
    ensures
        is_instruction_layout(s.subrange(lo, hi)) <==> clear_window_in(s, lo, hi),
{
    let t = s.subrange(lo, hi);
    if is_instruction_layout(t) {
        let w = choose|w: int| 0 <= w && w + 8 <= t.len() && window_clear(t, w);
        assert forall|m: int| lo + w <= m < lo + w + 8 implies #[trigger] s[m] != ' ' by {
            assert(t[m - lo] == s[m]);
        }
        assert(window_clear(s, lo + w));
        assert(clear_window_in(s, lo, hi));
    }
    if clear_window_in(s, lo, hi) {
        let a = choose|a: int| lo <= a && a + 8 <= hi && window_clear(s, a);
        assert forall|m: int| a - lo <= m < a - lo + 8 implies #[trigger] t[m] != ' ' by {
            assert(t[m] == s[m + lo]);
        }
        assert(window_clear(t, a - lo));
        assert(0 <= a - lo && a - lo + 8 <= t.len());
        assert(is_instruction_layout(t));
    }
}

fn window_clear_at(input: &str, a: usize) -> (b: bool)
    requires
        a + 8 <= input@.len(),
    ensures
        b == window_clear(input@, a as int),
{
    let len = input.unicode_len();
    let mut m: usize = 0;
    let mut clear = true;
    while m < 8
        invariant
            a + 8 <= len,
            len as int == input@.len(),
            0 <= m <= 8,
            clear <==> (forall|q: int| a <= q < a + m ==> #[trigger] input@[q] != ' '),
        decreases 8 - m,
    {
        if input.get_char(a + m) == ' ' {
            clear = false;
        }
        m = m + 1;
    }
    clear
}

fn has_clear_window(input: &str, pos: usize, j: usize) -> (b: bool)
    requires
        pos <= j,
        j as int <= input@.len(),
    ensures
        b == is_instruction_layout(input@.subrange(pos as int, j as int)),
{
    proof {
        lemma_layout_subrange(input@, pos as int, j as int);
    }
    if j - pos < 8 {
        return false;
    }
    let mut a = pos;
    let mut found = false;
    while a <= j - 8
        invariant
            pos + 8 <= j,
            j as int <= input@.len(),
            pos <= a <= j - 8 + 1,
            found <==> (exists|w: int|
                pos <= w && w + 8 <= j && w < a && window_clear(input@, w)),
        decreases j - a,
    {
        if window_clear_at(input, a) {
            found = true;
            assert(window_clear(input@, a as int));
        }
        a = a + 1;
    }
    proof {
        lemma_layout_subrange(input@, pos as int, j as int);
    }
    found
}

/// Scans the maximal run of hexadecimal digits and blanks at `pos`, decides
/// whether it denotes an instruction or a data dump, and decodes it into
/// bytes; an instruction comes out flipped into natural byte order.
pub fn word(input: &str, pos: usize) -> (r: Result<(Word, usize), ParseError>)
    requires
        pos as int <= input@.len(),
    ensures
        match r {
            Ok((w, p)) => spec_word(input@, pos as int) == Ok::<(WordModel, int), (
                ParseErrorKind,
                int,
            )>((w@, p as int)),
            Err(e) => spec_word(input@, pos as int) == Err::<(WordModel, int), (
                ParseErrorKind,
                int,
            )>((e.kind, e.position as int)),
        },
{
    let ghost s = input@;
    let end = span_scan(input, pos, CharClass::HexSpace);
    proof {
        lemma_span_end(CharClass::HexSpace, s, pos as int);
    }
    let mut j: usize = end;
    while j > pos && input.get_char(j - 1) == ' '
        invariant
            pos <= j <= end,
            end as int <= s.len(),
            s == input@,
            trim_end_blanks(s.subrange(pos as int, end as int)) == trim_end_blanks(
                s.subrange(pos as int, j as int),
            ),
        decreases j,
    {
        proof {
            let a = s.subrange(pos as int, j as int);
            assert(a.last() == s[j - 1]);
            assert(a.drop_last() =~= s.subrange(pos as int, j as int - 1));
        }
        j = j - 1;
    }
    proof {
        let a = s.subrange(pos as int, j as int);
        if j > pos {
            assert(a.last() == s[j - 1]);
        }
        assert(trim_end_blanks(a) == a);
    }
    let ghost t = s.subrange(pos as int, j as int);

    let mut digits: Vec<char> = Vec::new();
    let mut i: usize = pos;
    while i < j
        invariant
            pos <= i <= j,
            j <= end,
            end as int <= s.len(),
            s == input@,
            end as int == span_end(CharClass::HexSpace, s, pos as int),
            forall|k: int| pos <= k < end ==> in_class(CharClass::HexSpace, #[trigger] s[k]),
            digits@ == strip_blanks(s.subrange(pos as int, i as int)),
            forall|q: int| 0 <= q < digits@.len() ==> is_hex_digit_char(#[trigger] digits@[q]),
        decreases j - i,
    {
        let c = input.get_char(i);
        proof {
            assert(s.subrange(pos as int, i as int + 1).drop_last() =~= s.subrange(
                pos as int,
                i as int,
            ));
            assert(s.subrange(pos as int, i as int + 1).last() == s[i as int]);
        }
        if c != ' ' {
            digits.push(c);
        }
        i = i + 1;
    }
    proof {
        assert(digits@ == strip_blanks(t));
    }

    let is_instr = has_clear_window(input, pos, j);

    if digits.len() % 2 == 1 {
        return Err(ParseError { kind: ParseErrorKind::InvalidHex, position: pos });
    }

    let mut bytes: Vec<u8> = Vec::new();
    let mut k: usize = 0;
    while k < digits.len()
        invariant
            0 <= k <= digits@.len(),
            k % 2 == 0,
            digits@.len() % 2 == 0,
            bytes@ == bytes_of_pairs(digits@.subrange(0, k as int)),
            forall|q: int| 0 <= q < digits@.len() ==> is_hex_digit_char(#[trigger] digits@[q]),
        decreases digits@.len() - k,
    {
        let d0 = hex_digit_val(digits[k]);
        let d1 = hex_digit_val(digits[k + 1]);
        let b = (d0 * 16 + d1) as u8;
        proof {
            let a = digits@.subrange(0, k as int);
            let bb = digits@.subrange(0, k as int + 2);
            assert(bb.drop_last().drop_last() =~= a);
            assert(bb[bb.len() - 2] == digits@[k as int]);
            assert(bb[bb.len() - 1] == digits@[k as int + 1]);
        }
        bytes.push(b);
        k = k + 2;
    }
    proof {
        assert(digits@.subrange(0, digits@.len() as int) =~= digits@);
        assert(bytes@ == bytes_of_pairs(strip_blanks(t)));
    }

    if is_instr {
        if bytes.len() == 4 {
            let instruction = [bytes[3], bytes[2], bytes[1], bytes[0]];
            proof {
                assert(instruction@ =~= seq![bytes@[3], bytes@[2], bytes@[1], bytes@[0]]);
            }
            Ok((Word::Instruction { instruction }, end))
        } else {
            Err(ParseError { kind: ParseErrorKind::MalformedWord, position: pos })
        }
    } else {
        Ok((Word::Data { data: bytes }, end))
    }
}

} // verus!
