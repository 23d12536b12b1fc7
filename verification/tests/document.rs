use kmdparse::error::ParseErrorKind;
use kmdparse::label::Label;
use kmdparse::line::Line;
use kmdparse::parse_kmd;
use kmdparse::token::Token;
use kmdparse::word::Word;

/// A well-formed dump with several body lines and several labels.
fn example() -> String {
    let mut doc = String::new();
    doc.push_str("KMD\n");
    doc.push_str("00000000: E3A00001 ; mov   r0, #1\n");
    doc.push_str("00000004: E3A0200A ; mov   r2, #10\n");
    doc.push_str("00000008: 42 75 7A 7A ; buzz    DEFB \"Buzz\",0\n");
    doc.push_str("0000000C: 0A 00 ;\n");
    doc.push_str(";\n");
    doc.push_str("\n");
    doc.push_str("Symbol Table: Labels\n");
    doc.push_str(": main                              00000000  Global - ARM\n");
    doc.push_str(": buzz                              00000008  Local -- ARM\n");
    doc.push_str(": thumbed                           0000000C  Local -- Thumb\n");
    doc
}

const EXAMPLE_LINES: usize = 8;

#[test]
fn test_parse_kmd_valid() {
    let example = example();
    let (tokens, _) = parse_kmd(&example).unwrap();

    assert_eq!(tokens.len(), EXAMPLE_LINES);
}

#[test]
fn test_parse_kmd_valid_crlf() {
    let example = example().replace("\n", "\r\n");
    let (tokens, _) = parse_kmd(&example).unwrap();

    assert_eq!(tokens.len(), EXAMPLE_LINES);
}

#[test]
fn test_parse_kmd_terminator_style_same_tokens() {
    let lf = example();
    let crlf = lf.replace("\n", "\r\n");
    let (tokens_lf, p_lf) = parse_kmd(&lf).unwrap();
    let (tokens_crlf, _) = parse_kmd(&crlf).unwrap();

    assert_eq!(tokens_lf, tokens_crlf);
    assert_eq!(p_lf, lf.len());
}

#[test]
fn test_parse_kmd_order_and_content() {
    let example = example();
    let (tokens, p) = parse_kmd(&example).unwrap();

    // Body records come first, in source order; labels follow, in source
    // order; the whole input is consumed.
    assert_eq!(p, example.len());
    assert_eq!(tokens.len(), 8);
    assert_eq!(
        tokens[0],
        Token::Line {
            line: Line::new(
                Some(0),
                Some(Word::Instruction {
                    instruction: [0x01, 0x00, 0xA0, 0xE3]
                }),
                " mov   r0, #1".to_string()
            )
        }
    );
    assert_eq!(
        tokens[2],
        Token::Line {
            line: Line::new(
                Some(8),
                Some(Word::Data {
                    data: vec![0x42, 0x75, 0x7A, 0x7A]
                }),
                " buzz    DEFB \"Buzz\",0".to_string()
            )
        }
    );
    assert_eq!(
        tokens[4],
        Token::Line {
            line: Line::new(None, Some(Word::Data { data: vec![] }), "".to_string())
        }
    );
    assert_eq!(
        tokens[5],
        Token::Label {
            label: Label::new("main".to_string(), 0, true, false)
        }
    );
    assert_eq!(
        tokens[7],
        Token::Label {
            label: Label::new("thumbed".to_string(), 0x0C, false, true)
        }
    );
}

#[test]
fn test_parse_minimal() {
    // The minimal well-formed document: the tag, one body line (itself a
    // tag line), the separator, the section header, and no labels.
    let doc = "KMD\nKMD\n\nSymbol Table: Labels\n";
    let (tokens, p) = parse_kmd(doc).unwrap();

    assert_eq!(tokens.len(), 1);
    assert_eq!(tokens[0], Token::Tag);
    assert_eq!(p, doc.len());
}

#[test]
fn test_parse_missing_tag() {
    let e = parse_kmd("IGU\n00000000: ; x\n\nSymbol Table: Labels\n").unwrap_err();
    assert_eq!(e.kind, ParseErrorKind::MalformedTag);
    assert_eq!(e.position, 0);
}

#[test]
fn test_parse_missing_delimiter() {
    // The second body line lacks its `;` delimiter: the whole parse fails,
    // and the error points at or before that line.
    let doc = "KMD\n00000000: 12 34 ; one\n00000004: 56 78 no comment\n\nSymbol Table: Labels\n";
    let bad_line_start = "KMD\n00000000: 12 34 ; one\n".len();
    let e = parse_kmd(doc).unwrap_err();
    assert!(e.position <= bad_line_start);
}

#[test]
fn test_parse_missing_section_header() {
    let doc = "KMD\n00000000: 12 34 ; one\n\nNo Labels Here\n";
    let e = parse_kmd(doc).unwrap_err();
    assert_eq!(e.kind, ParseErrorKind::MissingSection);
}

#[test]
fn test_parse_first_line_malformed() {
    // The body needs at least one well-formed line.
    let doc = "KMD\n@@@@\nSymbol Table: Labels\n";
    let e = parse_kmd(doc).unwrap_err();
    assert_eq!(e.kind, ParseErrorKind::MalformedLine);
}

#[test]
fn test_parse_trailing_text_reported() {
    // Consumption stops cleanly at the first line that is not a label; the
    // unconsumed tail is reported through the returned position.
    let doc = "KMD\n00000000: 12 34 ; one\n\nSymbol Table: Labels\ntrailing garbage";
    let (tokens, p) = parse_kmd(doc).unwrap();
    assert_eq!(tokens.len(), 1);
    assert_eq!(&doc[p..], "trailing garbage");
}
