use kmdparse::error::ParseErrorKind;
use kmdparse::label::Label;
use kmdparse::line::Line;
use kmdparse::token::Token;
use kmdparse::word::Word;
use kmdparse::{comment, hex, hex_to_int, kmd_tag, label_title};

#[test]
fn test_kmd_tag_valid() {
    let input = "KMD\n";
    let p = kmd_tag(input, 0).unwrap();
    assert_eq!(p, input.len());
}

#[test]
fn test_kmd_tag_invalid() {
    assert!(kmd_tag("IGU\n", 0).is_err());
}

#[test]
fn test_kmd_tag_valid_extra() {
    let input = "KMD\nextra";
    let p = kmd_tag(input, 0).unwrap();
    assert_eq!(&input[..p], "KMD\n");
    assert_eq!(&input[p..], "extra");
}

#[test]
fn test_hex_valid() {
    // The round trip over every unsigned 32-bit value is proved in the
    // library; this samples the range densely, plus both ends.
    let mut samples: Vec<u32> = (0..=u32::MAX).step_by(65537).collect();
    samples.push(u32::MAX);
    samples.push(0);
    for i in samples {
        let rendered = format!("{:X}", i);
        let (v, p) = hex(&rendered, 0).unwrap();
        assert_eq!(v, i);
        assert_eq!(p, rendered.len());
    }
}

#[test]
fn test_hex_invalid() {
    assert!(hex("notamemoryaddress", 0).is_err());
    assert!(hex("", 0).is_err());
}

#[test]
fn test_hex_overflow() {
    assert!(hex("FFFFFFFFFFFFFFFF", 0).is_err());
}

#[test]
fn test_hex_spaces() {
    assert_eq!(hex("DE AD BE EF", 0).unwrap().0, 0xDEADBEEF);
    assert_eq!(hex("0A 00", 0).unwrap().0, 0x0A00);
}

#[test]
fn test_hex_to_int_plain() {
    assert_eq!(hex_to_int("FF").unwrap(), 255);
    assert_eq!(hex_to_int("DE AD BE EF").unwrap(), 0xDEADBEEF);
    let e = hex_to_int("GG").unwrap_err();
    assert_eq!(e.kind, ParseErrorKind::InvalidHex);
    assert!(hex_to_int("").is_err());
    assert!(hex_to_int("   ").is_err());
    assert!(hex_to_int("FFFFFFFFFFFFFFFF").is_err());
    assert_eq!(hex_to_int("00000000FF").unwrap(), 255);
}

#[test]
fn test_comment() {
    let comment_text = "Hello\n";
    let (text, p) = comment(comment_text, 0);
    assert_eq!(text, "Hello");
    assert_eq!(p, 5);
}

#[test]
fn test_comment_empty() {
    let (text, p) = comment("", 0);
    assert_eq!(text, "");
    assert_eq!(p, 0);
}

#[test]
fn test_line_tag() {
    let (token, p) = kmdparse::line::line("KMD\n", 0).unwrap();
    assert_eq!(token, Token::Tag);
    assert_eq!(p, 4);
}

#[test]
fn test_line_line() {
    let expected = Line::new(
        Some(0x00000008),
        Some(Word::Data {
            data: vec![0x42, 0x75, 0x7A, 0x7A],
        }),
        " buzz    DEFB \"Buzz\",0".to_string(),
    );

    let input = "00000008: 42 75 7A 7A ; buzz    DEFB \"Buzz\",0\n";
    let (token, p) = kmdparse::line::line(input, 0).unwrap();
    assert_eq!(token, Token::Line { line: expected });
    assert_eq!(p, input.len());
}

#[test]
fn test_line_missing_delimiter() {
    let e = kmdparse::line::line("00000008: 42 75\n", 0).unwrap_err();
    assert_eq!(e.kind, ParseErrorKind::MalformedLine);
}

#[test]
fn test_word_valid() {
    assert_eq!(
        kmdparse::word::word("DEADBEEF", 0).unwrap().0,
        Word::Instruction {
            instruction: [0xEF, 0xBE, 0xAD, 0xDE]
        }
    );

    assert_eq!(
        kmdparse::word::word("DE AD BE EF", 0).unwrap().0,
        Word::Data {
            data: vec![0xDE, 0xAD, 0xBE, 0xEF]
        }
    );
}

#[test]
fn test_word_valid_short() {
    assert_eq!(
        kmdparse::word::word("DEAD", 0).unwrap().0,
        Word::Data {
            data: vec![0xDE, 0xAD]
        }
    );
    assert_eq!(
        kmdparse::word::word("DE AD", 0).unwrap().0,
        Word::Data {
            data: vec![0xDE, 0xAD]
        }
    );
}

#[test]
fn test_word_empty_run() {
    // An empty run of digits decodes as an empty data dump.
    let (w, p) = kmdparse::word::word("; comment", 0).unwrap();
    assert_eq!(w, Word::Data { data: vec![] });
    assert_eq!(p, 0);
}

#[test]
fn test_word_instruction_wrong_size() {
    // Ten contiguous digits classify as an instruction but decode to five
    // bytes, which is not a valid instruction shape.
    let e = kmdparse::word::word("AABBCCDDEE", 0).unwrap_err();
    assert_eq!(e.kind, ParseErrorKind::MalformedWord);
}

#[test]
fn test_word_odd_digit_count() {
    let e = kmdparse::word::word("ABC", 0).unwrap_err();
    assert_eq!(e.kind, ParseErrorKind::InvalidHex);
}

#[test]
fn test_label_title_valid() {
    let input = "Symbol Table: Labels\n";
    assert_eq!(label_title(input, 0).unwrap(), input.len());
    let e = label_title("Symbols\n", 0).unwrap_err();
    assert_eq!(e.kind, ParseErrorKind::MissingSection);
}

#[test]
fn test_label_valid_local_arm() {
    let input = ": hello                             00000004  Local -- ARM\n";
    let expected = Token::Label {
        label: Label::new("hello".to_string(), 0x00000004, false, false),
    };

    let (token, p) = kmdparse::label::label(input, 0).unwrap();
    assert_eq!(token, expected);
    assert_eq!(p, input.len());
}

#[test]
fn test_label_valid_exported_arm() {
    let input = ": hello                             00000004  Global - ARM\n";
    let expected = Token::Label {
        label: Label::new("hello".to_string(), 0x00000004, true, false),
    };

    let (token, p) = kmdparse::label::label(input, 0).unwrap();
    assert_eq!(token, expected);
    assert_eq!(p, input.len());
}

#[test]
fn test_label_valid_local_thumb() {
    let input = ": hello                             00000004  Local -- Thumb\n";
    let expected = Token::Label {
        label: Label::new("hello".to_string(), 0x00000004, false, true),
    };

    let (token, p) = kmdparse::label::label(input, 0).unwrap();
    assert_eq!(token, expected);
    assert_eq!(p, input.len());
}

#[test]
fn test_label_valid_exported_thumb() {
    let input = ": hello                             00000004  Global - Thumb\n";
    let expected = Token::Label {
        label: Label::new("hello".to_string(), 0x00000004, true, true),
    };

    let (token, p) = kmdparse::label::label(input, 0).unwrap();
    assert_eq!(token, expected);
    assert_eq!(p, input.len());
}

#[test]
fn test_label_wrong_dash_count() {
    // The local marker carries two dashes; one dash must be refused.
    let input = ": hello   00000004  Local - ARM\n";
    let e = kmdparse::label::label(input, 0).unwrap_err();
    assert_eq!(e.kind, ParseErrorKind::MalformedLabel);
}

#[test]
fn test_label_unsupported_architecture() {
    let input = ": hello   00000004  Global - RISC\n";
    let e = kmdparse::label::label(input, 0).unwrap_err();
    assert_eq!(e.kind, ParseErrorKind::MalformedLabel);
}
