use crate::error::{ParseError, ParseErrorKind};
use crate::scan::{comment, eol, hex, lemma_span_end, span_end, span_scan, spec_eol, spec_hex,
    CharClass};
use crate::token::{Token, TokenModel};
use crate::word::{spec_word, word, Word, WordModel};
use crate::{kmd_tag, spec_kmd_tag};
use vstd::prelude::*;

verus! {

/// One body record of the dump: an optional memory address, an optional
/// decoded word, and the comment text that every body line carries.
#[derive(Clone, Debug, PartialEq, Eq)]
pub struct Line {
    pub memory_address: Option<u32>,
    pub word: Option<Word>,
    pub comment: String,
}

/// The mathematical shape of a [`Line`].
pub struct LineModel {
    pub memory_address: Option<u32>,
    pub word: Option<WordModel>,
    pub comment: Seq<char>,
}

impl View for Line {
    type V = LineModel;

    open spec fn view(&self) -> LineModel {
        LineModel {
            memory_address: self.memory_address,
            word: self.word.deep_view(),
            comment: self.comment@,
        }
    }
}

impl DeepView for Line {
    type V = LineModel;

    open spec fn deep_view(&self) -> LineModel {
        self.view()
    }
}

impl Line {
    pub fn new(memory_address: Option<u32>, word: Option<Word>, comment: String) -> (r: Self)
        ensures
            r.memory_address == memory_address,
            r.word == word,
            r.comment == comment,
    {
        Self { memory_address, word, comment }
    }
}

/// Recognizes one physical body line at `pos`. A tag line is recognized
/// first; otherwise the line carries an optional address, an optional `:`
/// delimiter, an optional word, then the mandatory `;` delimiter, the
/// comment, and a line terminator. A failed optional field consumes
/// nothing; a missing `;` or terminator fails the line.
pub open spec fn spec_line(s: Seq<char>, pos: int) -> Result<(TokenModel, int), (
    ParseErrorKind,
    int,
)> {
    match spec_kmd_tag(s, pos) {
        Ok(p) => Ok((TokenModel::Tag, p)),
        Err(_) => {
            let (addr, p1) = match spec_hex(s, pos) {
                Ok((v, p)) => (Some(v), p),
                Err(_) => (None::<u32>, pos),
            };
            let p2 = if p1 < s.len() && s[p1] == ':' {
                p1 + 1
            } else {
                p1
            };
            let p3 = span_end(CharClass::Horizontal, s, p2);
            let (w, p4) = match spec_word(s, p3) {
                Ok((wm, p)) => (Some(wm), p),
                Err(_) => (None::<WordModel>, p3),
            };
            let p5 = span_end(CharClass::Horizontal, s, p4);
            if !(p5 < s.len() && s[p5] == ';') {
                Err((ParseErrorKind::MalformedLine, p5))
            } else {
                let p6 = p5 + 1;
                let p7 = span_end(CharClass::CommentChar, s, p6);
                match spec_eol(s, p7) {
                    Some(p8) => Ok(
                        (
                            TokenModel::Line {
                                line: LineModel {
                                    memory_address: addr,
                                    word: w,
                                    comment: s.subrange(p6, p7),
                                },
                            },
                            p8,
                        ),
                    ),
                    None => Err((ParseErrorKind::MalformedLine, p7)),
                }
            }
        },
    }
}

/// Parses one physical line into a token: the tag, or one body record.
pub fn line(input: &str, pos: usize) -> (r: Result<(Token, usize), ParseError>)
    requires
        pos as int <= input@.len(),
    ensures
        match r {
            Ok((t, p)) => spec_line(input@, pos as int) == Ok::<(TokenModel, int), (
                ParseErrorKind,
                int,
            )>((t.deep_view(), p as int)) && pos < p && p as int <= input@.len(),
            Err(e) => spec_line(input@, pos as int) == Err::<(TokenModel, int), (
                ParseErrorKind,
                int,
            )>((e.kind, e.position as int)),
        },
{
    match kmd_tag(input, pos) {
        Ok(p) => {
            return Ok((Token::Tag, p));
        },
        Err(_) => {},
    }
    let len = input.unicode_len();
    proof {
        lemma_span_end(CharClass::HexSpace, input@, pos as int);
    }
    let (addr, p1): (Option<u32>, usize) = match hex(input, pos) {
        Ok((v, p)) => (Some(v), p),
        Err(_) => (None, pos),
    };
    let p2 = if p1 < len && input.get_char(p1) == ':' {
        p1 + 1
    } else {
        p1
    };
    let p3 = span_scan(input, p2, CharClass::Horizontal);
    proof {
        lemma_span_end(CharClass::HexSpace, input@, p3 as int);
    }
    let (w, p4): (Option<Word>, usize) = match word(input, p3) {
        Ok((wd, p)) => (Some(wd), p),
        Err(_) => (None, p3),
    };
    let p5 = span_scan(input, p4, CharClass::Horizontal);
    if !(p5 < len && input.get_char(p5) == ';') {
        return Err(ParseError { kind: ParseErrorKind::MalformedLine, position: p5 });
    }
    let p6 = p5 + 1;
    let (ctext, p7) = comment(input, p6);
    match eol(input, p7) {
        Some(p8) => Ok((Token::Line { line: Line::new(addr, w, ctext.to_owned()) }, p8)),
        None => Err(ParseError { kind: ParseErrorKind::MalformedLine, position: p7 }),
    }
}

} // verus!
