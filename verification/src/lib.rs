//! A decoder for the KMD textual dump format of an ARM/Thumb assembler
//! toolchain: a `KMD` header tag, an ordered run of address/word/comment
//! body records, and a trailing symbol table of named labels.
//!
//! The grammar is a single left-to-right pass over the input, specified by
//! spec functions over the input's character sequence; every executable
//! parser is proved to agree with its spec function exactly, on successes
//! and on failures alike. The module [`crlf`] proves that the grammar is
//! blind to the terminator style (line feed alone, or carriage return plus
//! line feed), and [`scan`] proves the hexadecimal round trip over the
//! whole 32-bit range.
pub mod crlf;
pub mod error;
pub mod label;
pub mod line;
pub mod scan;
pub mod token;
pub mod word;

pub use error::{ParseError, ParseErrorKind};
pub use scan::{comment, hex, hex_to_int};

use label::spec_label;
use line::spec_line;
use scan::{eol, match_lit, matches_at, spec_eol};
use token::{Token, TokenModel};
use vstd::prelude::*;

verus! {

/// Recognizes the format tag at `pos`: the literal `KMD` closed by a line
/// terminator of either style.
pub open spec fn spec_kmd_tag(s: Seq<char>, pos: int) -> Result<int, (ParseErrorKind, int)> {
    if pos + 5 <= s.len() && s[pos] == 'K' && s[pos + 1] == 'M' && s[pos + 2] == 'D' && s[pos + 3]
        == '\r' && s[pos + 4] == '\n' {
        Ok(pos + 5)
    } else if pos + 4 <= s.len() && s[pos] == 'K' && s[pos + 1] == 'M' && s[pos + 2] == 'D' && s[
        pos + 3] == '\n' {
        Ok(pos + 4)
    } else {
        Err((ParseErrorKind::MalformedTag, pos))
    }
}

/// Matches the `KMD` tag that opens every dump.
pub fn kmd_tag(input: &str, pos: usize) -> (r: Result<usize, ParseError>)
    requires
        pos as int <= input@.len(),
    ensures
        match r {
            Ok(p) => spec_kmd_tag(input@, pos as int) == Ok::<int, (ParseErrorKind, int)>(
                p as int,
            ) && pos < p && p as int <= input@.len(),
            Err(e) => spec_kmd_tag(input@, pos as int) == Err::<int, (ParseErrorKind, int)>(
                (e.kind, e.position as int),
            ),
        },
{
    let len = input.unicode_len();
    if len - pos >= 5 && input.get_char(pos) == 'K' && input.get_char(pos + 1) == 'M'
        && input.get_char(pos + 2) == 'D' && input.get_char(pos + 3) == '\r' && input.get_char(
        pos + 4,
    ) == '\n' {
        Ok(pos + 5)
    } else if len - pos >= 4 && input.get_char(pos) == 'K' && input.get_char(pos + 1) == 'M'
        && input.get_char(pos + 2) == 'D' && input.get_char(pos + 3) == '\n' {
        Ok(pos + 4)
    } else {
        Err(ParseError { kind: ParseErrorKind::MalformedTag, position: pos })
    }
}

/// Recognizes the section header that separates body records from the
/// symbol table.
pub open spec fn spec_label_title(s: Seq<char>, pos: int) -> Result<int, (ParseErrorKind, int)> {
    if matches_at(s, pos, "Symbol Table: Labels\n"@) {
        Ok(pos + "Symbol Table: Labels\n"@.len() as int)
    } else if matches_at(s, pos, "Symbol Table: Labels\r\n"@) {
        Ok(pos + "Symbol Table: Labels\r\n"@.len() as int)
    } else {
        Err((ParseErrorKind::MissingSection, pos))
    }
}

/// Matches the symbol-table section header.
pub fn label_title(input: &str, pos: usize) -> (r: Result<usize, ParseError>)
    requires
        pos as int <= input@.len(),
    ensures
        match r {
            Ok(p) => spec_label_title(input@, pos as int) == Ok::<int, (ParseErrorKind, int)>(
                p as int,
            ) && pos <= p && p as int <= input@.len(),
            Err(e) => spec_label_title(input@, pos as int) == Err::<int, (ParseErrorKind, int)>(
                (e.kind, e.position as int),
            ),
        },
{
    let len = input.unicode_len();
    if match_lit(input, pos, "Symbol Table: Labels\n") {
        let n = "Symbol Table: Labels\n".unicode_len();
        Ok(pos + n)
    } else if match_lit(input, pos, "Symbol Table: Labels\r\n") {
        let n = "Symbol Table: Labels\r\n".unicode_len();
        Ok(pos + n)
    } else {
        Err(ParseError { kind: ParseErrorKind::MissingSection, position: pos })
    }
}

/// The longest run of body lines that parse cleanly from `pos`: their
/// tokens in source order, and the position where the run stops.
pub open spec fn spec_lines(s: Seq<char>, pos: int) -> (Seq<TokenModel>, int)
    decreases s.len() - pos,
    when 0 <= pos <= s.len()
{
    match spec_line(s, pos) {
        Ok((t, p)) => {
            if pos < p <= s.len() {
                let rest = spec_lines(s, p);
                (seq![t] + rest.0, rest.1)
            } else {
                (Seq::empty(), pos)
            }
        },
        Err(_) => (Seq::empty(), pos),
    }
}

/// The longest run of label lines that parse cleanly from `pos`: their
/// tokens in source order, and the position where the run stops.
pub open spec fn spec_labels(s: Seq<char>, pos: int) -> (Seq<TokenModel>, int)
    decreases s.len() - pos,
    when 0 <= pos <= s.len()
{
    match spec_label(s, pos) {
        Ok((lm, p)) => {
            if pos < p <= s.len() {
                let rest = spec_labels(s, p);
                (seq![TokenModel::Label { label: lm }] + rest.0, rest.1)
            } else {
                (Seq::empty(), pos)
            }
        },
        Err(_) => (Seq::empty(), pos),
    }
}

/// What a whole parse recognizes: the tag, one or more body lines, a blank
/// separator line, the section header, then zero or more labels. The
/// result concatenates body tokens and label tokens, body first, each
/// group in source order, together with the position where consumption
/// stopped.
pub open spec fn spec_parse_kmd(s: Seq<char>) -> Result<(Seq<TokenModel>, int), (
    ParseErrorKind,
    int,
)> {
    match spec_kmd_tag(s, 0) {
        Err(e) => Err(e),
        Ok(p1) => match spec_line(s, p1) {
            Err(e) => Err(e),
            Ok(_) => {
                let body = spec_lines(s, p1).0;
                let p2 = spec_lines(s, p1).1;
                match spec_eol(s, p2) {
                    None => Err((ParseErrorKind::MissingSection, p2)),
                    Some(p3) => match spec_label_title(s, p3) {
                        Err(e) => Err(e),
                        Ok(p4) => Ok((body + spec_labels(s, p4).0, spec_labels(s, p4).1)),
                    },
                }
            },
        },
    }
}

/// Output order equals input order: a successful parse yields exactly the
/// body-record run followed by the label run, body first, each group in
/// source order.
pub proof fn lemma_parse_order(s: Seq<char>)
    ensures
        match spec_parse_kmd(s) {
            Ok((toks, end)) => {
                let p1 = match spec_kmd_tag(s, 0) {
                    Ok(p) => p,
                    Err(_) => 0,
                };
                let body = spec_lines(s, p1).0;
                let p2 = spec_lines(s, p1).1;
                let p3 = match spec_eol(s, p2) {
                    Some(p) => p,
                    None => p2,
                };
                let p4 = match spec_label_title(s, p3) {
                    Ok(p) => p,
                    Err(_) => p3,
                };
                let labs = spec_labels(s, p4).0;
                &&& toks.len() == body.len() + labs.len()
                &&& forall|i: int| 0 <= i < body.len() ==> toks[i] == body[i]
                &&& forall|i: int|
                    0 <= i < labs.len() ==> toks[body.len() + i] == #[trigger] labs[i]
            },
            Err(_) => true,
        },
{
}

/// Parses one whole dump. On success the tokens come back in input order,
/// all body records first, then all labels, together with the position of
/// the first unconsumed character (trailing text is the caller's concern).
/// On failure no tokens come back: the first malformed construct aborts
/// the whole parse, and the error carries its position.
pub fn parse_kmd(input: &str) -> (r: Result<(Vec<Token>, usize), ParseError>)
    ensures
        match r {
            Ok((tokens, p)) => spec_parse_kmd(input@) == Ok::<(Seq<TokenModel>, int), (
                ParseErrorKind,
                int,
            )>((tokens.deep_view(), p as int)),
            Err(e) => spec_parse_kmd(input@) == Err::<(Seq<TokenModel>, int), (
                ParseErrorKind,
                int,
            )>((e.kind, e.position as int)),
        },
{
    let ghost s = input@;
    let len = input.unicode_len();
    let p1 = match kmd_tag(input, 0) {
        Ok(p) => p,
        Err(e) => {
            return Err(e);
        },
    };
    let (t0, c0) = match line::line(input, p1) {
        Ok(x) => x,
        Err(e) => {
            return Err(e);
        },
    };
    let mut tokens: Vec<Token> = Vec::new();
    tokens.push(t0);
    let mut cur = c0;
    let mut more = true;
    proof {
        assert(tokens.deep_view() =~= seq![t0.deep_view()]);
        assert(spec_lines(s, p1 as int).0 == seq![t0.deep_view()] + spec_lines(s, c0 as int).0);
    }
    while more
        invariant
            p1 <= cur <= len,
            len as int == s.len(),
            s == input@,
            spec_lines(s, p1 as int).0 == tokens.deep_view() + (if more {
                spec_lines(s, cur as int).0
            } else {
                Seq::<TokenModel>::empty()
            }),
            spec_lines(s, p1 as int).1 == (if more {
                spec_lines(s, cur as int).1
            } else {
                cur as int
            }),
        decreases len - cur + (if more {
            1int
        } else {
            0int
        }),
    {
        match line::line(input, cur) {
            Ok((t, p)) => {
                proof {
                    assert(spec_lines(s, cur as int).0 == seq![t.deep_view()] + spec_lines(
                        s,
                        p as int,
                    ).0);
                }
                let ghost old_deep = tokens.deep_view();
                tokens.push(t);
                proof {
                    assert(tokens.deep_view() =~= old_deep.push(t.deep_view()));
                    assert(old_deep.push(t.deep_view()) + spec_lines(s, p as int).0 =~= old_deep
                        + (seq![t.deep_view()] + spec_lines(s, p as int).0));
                }
                cur = p;
            },
            Err(_) => {
                more = false;
                proof {
                    assert(spec_lines(s, cur as int).0 =~= Seq::<TokenModel>::empty());
                    assert(tokens.deep_view() + Seq::<TokenModel>::empty() =~= tokens.deep_view());
                }
            },
        }
    }
    let ghost body = tokens.deep_view();
    proof {
        assert(body + Seq::<TokenModel>::empty() =~= body);
        assert(spec_lines(s, p1 as int).0 == body);
    }
    let p2 = cur;
    let p3 = match eol(input, p2) {
        Some(p) => p,
        None => {
            return Err(ParseError { kind: ParseErrorKind::MissingSection, position: p2 });
        },
    };
    let p4 = match label_title(input, p3) {
        Ok(p) => p,
        Err(e) => {
            return Err(e);
        },
    };
    let mut labels: Vec<Token> = Vec::new();
    let mut cur2 = p4;
    let mut more2 = true;
    proof {
        assert(labels.deep_view() =~= Seq::<TokenModel>::empty());
    }
    while more2
        invariant
            p4 <= cur2 <= len,
            len as int == s.len(),
            s == input@,
            spec_labels(s, p4 as int).0 == labels.deep_view() + (if more2 {
                spec_labels(s, cur2 as int).0
            } else {
                Seq::<TokenModel>::empty()
            }),
            spec_labels(s, p4 as int).1 == (if more2 {
                spec_labels(s, cur2 as int).1
            } else {
                cur2 as int
            }),
        decreases len - cur2 + (if more2 {
            1int
        } else {
            0int
        }),
    {
        match label::label(input, cur2) {
            Ok((t, p)) => {
                proof {
                    assert(spec_labels(s, cur2 as int).0 == seq![t.deep_view()] + spec_labels(
                        s,
                        p as int,
                    ).0);
                }
                let ghost old_deep = labels.deep_view();
                labels.push(t);
                proof {
                    assert(labels.deep_view() =~= old_deep.push(t.deep_view()));
                    assert(old_deep.push(t.deep_view()) + spec_labels(s, p as int).0 =~= old_deep
                        + (seq![t.deep_view()] + spec_labels(s, p as int).0));
                }
                cur2 = p;
            },
            Err(_) => {
                more2 = false;
                proof {
                    assert(labels.deep_view() + Seq::<TokenModel>::empty() =~= labels.deep_view());
                }
            },
        }
    }
    let ghost labs = labels.deep_view();
    proof {
        assert(labs + Seq::<TokenModel>::empty() =~= labs);
        assert(spec_labels(s, p4 as int).0 == labs);
    }
    tokens.append(&mut labels);
    proof {
        assert(tokens.deep_view() =~= body + labs);
    }
    Ok((tokens, cur2))
}

} // verus!
