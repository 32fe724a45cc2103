use sentinel::parser::ansi_fsm::parse_escape_sequence;
use sentinel::parser::tokenizer::{TokenKind, Tokenizer};
use sentinel::renderer::strip_ansi;

fn tokens(data: &[u8]) -> Vec<(TokenKind, usize, usize)> {
    let mut t = Tokenizer::new(data);
    let mut out = Vec::new();
    while let Some(tok) = t.next() {
        out.push((tok.kind, tok.start, tok.end));
    }
    out
}

#[test]
fn escape_not_starting_with_esc_is_zero() {
    assert_eq!(parse_escape_sequence(b""), 0);
    assert_eq!(parse_escape_sequence(b"abc"), 0);
}

#[test]
fn escape_lone_esc_is_incomplete() {
    assert_eq!(parse_escape_sequence(b"\x1b"), 0);
}

#[test]
fn escape_single_char_sequences() {
    for c in [b'7', b'8', b'D', b'M', b'E', b'H', b'c', b'=', b'>'] {
        assert_eq!(parse_escape_sequence(&[0x1b, c, b'x']), 2);
    }
}

#[test]
fn escape_csi_complete() {
    assert_eq!(parse_escape_sequence(b"\x1b[0m rest"), 4);
    assert_eq!(parse_escape_sequence(b"\x1b[1;97;41mX"), 10);
    assert_eq!(parse_escape_sequence(b"\x1b[A"), 3);
}

#[test]
fn escape_csi_incomplete() {
    assert_eq!(parse_escape_sequence(b"\x1b["), 0);
    assert_eq!(parse_escape_sequence(b"\x1b[1;3"), 0);
}

#[test]
fn escape_csi_malformed_consumes_esc_only() {
    assert_eq!(parse_escape_sequence(b"\x1b[1\x07"), 1);
    assert_eq!(parse_escape_sequence(b"\x1b[\x1bm"), 1);
}

#[test]
fn escape_osc_terminators() {
    assert_eq!(parse_escape_sequence(b"\x1b]0;title\x07after"), 10);
    assert_eq!(parse_escape_sequence(b"\x1b]0;t\x1b\\after"), 7);
    assert_eq!(parse_escape_sequence(b"\x1b]0;t\x1bX"), 6);
    assert_eq!(parse_escape_sequence(b"\x1b]0;title"), 0);
}

#[test]
fn escape_generic_two_bytes() {
    assert_eq!(parse_escape_sequence(b"\x1b(B"), 2);
    assert_eq!(parse_escape_sequence(b"\x1b\x1b"), 2);
}

#[test]
fn tokenizer_empty_input() {
    assert!(tokens(b"").is_empty());
}

#[test]
fn tokenizer_plain_text() {
    assert_eq!(tokens(b"hello"), vec![(TokenKind::Text, 0, 5)]);
}

#[test]
fn tokenizer_alternates_text_and_escapes() {
    let data = b"\x1b[36mweb-1\x1b[0m | ok";
    assert_eq!(
        tokens(data),
        vec![
            (TokenKind::Escape, 0, 5),
            (TokenKind::Text, 5, 10),
            (TokenKind::Escape, 10, 14),
            (TokenKind::Text, 14, 19),
        ]
    );
}

#[test]
fn tokenizer_incomplete_escape_is_text_to_end() {
    assert_eq!(
        tokens(b"ab\x1b[12"),
        vec![(TokenKind::Text, 0, 2), (TokenKind::Text, 2, 6)]
    );
}

#[test]
fn tokenizer_tokens_cover_input() {
    let data = b"x\x1b[1mY\x1b]t\x07z\x1b";
    let toks = tokens(data);
    let mut pos = 0;
    for (_, s, e) in &toks {
        assert_eq!(*s, pos);
        assert!(e > s);
        pos = *e;
    }
    assert_eq!(pos, data.len());
}

#[test]
fn strip_removes_colour_codes() {
    let line = b"\x1b[36mweb-1  |\x1b[0m Error: connection refused";
    assert_eq!(strip_ansi(line), b"web-1  | Error: connection refused".to_vec());
}

#[test]
fn strip_keeps_plain_text() {
    assert_eq!(strip_ansi(b"plain text"), b"plain text".to_vec());
    assert_eq!(strip_ansi(b""), Vec::<u8>::new());
}

#[test]
fn strip_keeps_incomplete_sequence() {
    assert_eq!(strip_ansi(b"abc\x1b[1"), b"abc\x1b[1".to_vec());
}

#[test]
fn strip_malformed_csi_drops_only_esc() {
    assert_eq!(strip_ansi(b"\x1b[1\x07z"), b"[1\x07z".to_vec());
}

#[test]
fn strip_twice_is_strip_once() {
    let data = b"\x1b\x1b[mX\x1b[\x1bmY\x1b]0;t\x07Z\x1b[";
    let once = strip_ansi(data);
    assert_eq!(strip_ansi(&once), once);
}

#[test]
fn strip_never_lengthens() {
    for data in [&b"\x1b[1mA\x1b[0m"[..], b"abc", b"\x1b", b"\x1b]x\x1b\\y"] {
        assert!(strip_ansi(data).len() <= data.len());
    }
}

#[test]
fn escape_osc_lone_esc_is_incomplete() {
    assert_eq!(parse_escape_sequence(b"\x1b]0;t\x1b"), 0);
    assert_eq!(parse_escape_sequence(b"\x1b]0;t\x1b\\"), 7);
    assert_eq!(parse_escape_sequence(b"\x1b]\x1b"), 0);
    assert_eq!(parse_escape_sequence(b"\x1b]\x1b\\"), 4);
}

#[test]
fn escape_length_stays_when_bytes_follow() {
    let complete: [&[u8]; 5] = [b"\x1b[31m", b"\x1b7", b"\x1b]0;t\x07", b"\x1b]0;t\x1bX", b"\x1b(B"];
    for seq in complete {
        let n = parse_escape_sequence(seq);
        assert!(n > 0);
        let mut longer = seq.to_vec();
        longer.extend_from_slice(b"\\more\x1b[0m");
        assert_eq!(parse_escape_sequence(&longer), n);
    }
}

#[test]
fn tokens_cover_the_data() {
    let data = b"a\x1b[31mred\x1b[0m\x1b]0;t\x07end\x1b[";
    let toks = Tokenizer::new(data).tokens();
    let listed: Vec<(TokenKind, usize, usize)> =
        toks.iter().map(|t| (t.kind, t.start, t.end)).collect();
    assert_eq!(listed, tokens(data));
    assert_eq!(toks[0].start, 0);
    assert_eq!(toks[toks.len() - 1].end, data.len());
    for w in toks.windows(2) {
        assert_eq!(w[0].end, w[1].start);
    }
    for t in &toks {
        assert!(t.start < t.end);
        match t.kind {
            TokenKind::Escape => {
                assert_eq!(parse_escape_sequence(&data[t.start..]), t.end - t.start)
            }
            TokenKind::Text => assert!(
                !data[t.start..t.end].contains(&0x1b)
                    || (t.end == data.len() && parse_escape_sequence(&data[t.start..]) == 0)
            ),
        }
    }
    assert!(Tokenizer::new(b"").tokens().is_empty());
}
