use crate::error::{ParseError, ParseErrorKind};
use crate::scan::{eol, hex, lemma_span_end, match_lit, matches_at, span_end, span_scan, spec_eol,
    spec_hex, CharClass};
use crate::token::{Token, TokenModel};
use vstd::prelude::*;

verus! {

/// One symbol-table record: a named label bound to a memory address, with
/// its visibility and its instruction-set mode.
#[derive(Clone, Debug, PartialEq, Eq)]
pub struct Label {
    /// The name of the label.
    pub name: String,
    /// The associated memory address of the label.
    pub memory_address: u32,
    /// Whether the label is global (true for global, false for local).
    pub is_exported: bool,
    /// Whether the label points to a Thumb instruction.
    pub is_thumb: bool,
}

/// The mathematical shape of a [`Label`].
pub struct LabelModel {
    pub name: Seq<char>,
    pub memory_address: u32,
    pub is_exported: bool,
    pub is_thumb: bool,
}

impl View for Label {
    type V = LabelModel;

    open spec fn view(&self) -> LabelModel {
        LabelModel {
            name: self.name@,
            memory_address: self.memory_address,
            is_exported: self.is_exported,
            is_thumb: self.is_thumb,
        }
    }
}

impl DeepView for Label {
    type V = LabelModel;

    open spec fn deep_view(&self) -> LabelModel {
        self.view()
    }
}

impl Label {
    pub fn new(name: String, memory_address: u32, is_exported: bool, is_thumb: bool) -> (r: Self)
        ensures
            r.name == name,
            r.memory_address == memory_address,
            r.is_exported == is_exported,
            r.is_thumb == is_thumb,
    {
        Self { name, memory_address, is_exported, is_thumb }
    }
}

/// Recognizes one symbol-table line at `pos`: the literal `": "`, an
/// alphabetic name, padding, a mandatory address, padding, the visibility
/// marker (`Global - ` with one dash, `Local -- ` with two), the
/// architecture marker (`Thumb` or `ARM`), and a line terminator.
pub open spec fn spec_label(s: Seq<char>, pos: int) -> Result<(LabelModel, int), (
    ParseErrorKind,
    int,
)> {
    if !matches_at(s, pos, ": "@) {
        Err((ParseErrorKind::MalformedLabel, pos))
    } else {
        let p1 = pos + ": "@.len() as int;
        let p2 = span_end(CharClass::Alphabetic, s, p1);
        let name = s.subrange(p1, p2);
        let p3 = span_end(CharClass::Padding, s, p2);
        match spec_hex(s, p3) {
            Err(e) => Err(e),
            Ok((addr, p4)) => {
                let p5 = span_end(CharClass::Padding, s, p4);
                if !(matches_at(s, p5, "Global - "@) || matches_at(s, p5, "Local -- "@)) {
                    Err((ParseErrorKind::MalformedLabel, p5))
                } else {
                    let exported = matches_at(s, p5, "Global - "@);
                    let p6 = if exported {
                        p5 + "Global - "@.len() as int
                    } else {
                        p5 + "Local -- "@.len() as int
                    };
                    if !(matches_at(s, p6, "Thumb"@) || matches_at(s, p6, "ARM"@)) {
                        Err((ParseErrorKind::MalformedLabel, p6))
                    } else {
                        let thumb = matches_at(s, p6, "Thumb"@);
                        let p7 = if thumb {
                            p6 + "Thumb"@.len() as int
                        } else {
                            p6 + "ARM"@.len() as int
                        };
                        match spec_eol(s, p7) {
                            Some(p8) => Ok(
                                (
                                    LabelModel {
                                        name,
                                        memory_address: addr,
                                        is_exported: exported,
                                        is_thumb: thumb,
                                    },
                                    p8,
                                ),
                            ),
                            None => Err((ParseErrorKind::MalformedLabel, p7)),
                        }
                    }
                }
            },
        }
    }
}

/// Parses one symbol-table line into a label token.
pub fn label(input: &str, pos: usize) -> (r: Result<(Token, usize), ParseError>)
    requires
        pos as int <= input@.len(),
    ensures
        match r {
            Ok((t, p)) => {
                &&& t.deep_view() matches TokenModel::Label { label }
                &&& spec_label(input@, pos as int) == Ok::<(LabelModel, int), (
                    ParseErrorKind,
                    int,
                )>((label, p as int))
                &&& pos < p
                &&& p as int <= input@.len()
            },
            Err(e) => spec_label(input@, pos as int) == Err::<(LabelModel, int), (
                ParseErrorKind,
                int,
            )>((e.kind, e.position as int)),
        },
{
    let len = input.unicode_len();
    if !match_lit(input, pos, ": ") {
        return Err(ParseError { kind: ParseErrorKind::MalformedLabel, position: pos });
    }
    let p1 = pos + ": ".unicode_len();
    let p2 = span_scan(input, p1, CharClass::Alphabetic);
    let name = input.substring_char(p1, p2).to_owned();
    let p3 = span_scan(input, p2, CharClass::Padding);
    let (addr, p4) = match hex(input, p3) {
        Ok(x) => x,
        Err(e) => {
            return Err(e);
        },
    };
    proof {
        lemma_span_end(CharClass::HexSpace, input@, p3 as int);
    }
    let p5 = span_scan(input, p4, CharClass::Padding);
    let g = match_lit(input, p5, "Global - ");
    let l = match_lit(input, p5, "Local -- ");
    if !(g || l) {
        return Err(ParseError { kind: ParseErrorKind::MalformedLabel, position: p5 });
    }
    let exported = g;
    let p6 = if g {
        p5 + "Global - ".unicode_len()
    } else {
        p5 + "Local -- ".unicode_len()
    };
    let th = match_lit(input, p6, "Thumb");
    let ar = match_lit(input, p6, "ARM");
    if !(th || ar) {
        return Err(ParseError { kind: ParseErrorKind::MalformedLabel, position: p6 });
    }
    let thumb = th;
    let p7 = if th {
        p6 + "Thumb".unicode_len()
    } else {
        p6 + "ARM".unicode_len()
    };
    match eol(input, p7) {
        Some(p8) => Ok((Token::Label { label: Label::new(name, addr, exported, thumb) }, p8)),
        None => Err(ParseError { kind: ParseErrorKind::MalformedLabel, position: p7 }),
    }
}

} // verus!
