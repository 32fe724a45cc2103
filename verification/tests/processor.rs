use sentinel::config::schema::{Config, Filter};
use sentinel::matcher::classifier::Severity;
use sentinel::matcher::PatternDatabase;
use sentinel::renderer::Renderer;
use sentinel::runtime::line_assembler::MAX_LINE_LEN;
use sentinel::runtime::processor::Processor;

fn processor(filters: &[(&str, Severity)]) -> Processor {
    let config = Config {
        filters: filters
            .iter()
            .map(|(p, s)| Filter { pattern: p.to_string(), severity: *s })
            .collect(),
    };
    let db = PatternDatabase::from_defs(&config.to_pattern_defs());
    Processor::new(Renderer::new(), db).unwrap()
}

#[test]
fn readme_quick_test() {
    let mut p = Processor::with_defaults(Renderer::new()).unwrap();
    let mut out = p.process_chunk(
        b"server starting...\nerror: port 3000 in use\nwarning: retrying on 3001\nserver ready\n",
    );
    out.extend(p.flush());
    let expected: Vec<u8> = [
        &b"server starting...\n"[..],
        b"\x07\x1b[1;97;41merror: port 3000 in use\x1b[0m\n",
        b"\x1b[1;93mwarning: retrying on 3001\x1b[0m\n",
        b"\x1b[1;96mserver ready\x1b[0m\n",
    ]
    .concat();
    assert_eq!(out, expected);
}

#[test]
fn matching_ignores_case() {
    let mut p = processor(&[("error", Severity::Error), ("ready", Severity::Info)]);
    let out = p.process_chunk(b"BuildERROR here\n");
    assert_eq!(out, b"\x07\x1b[1;97;41mBuildERROR here\x1b[0m\n".to_vec());
}

#[test]
fn matching_ignores_colour_codes() {
    let mut p = processor(&[("error", Severity::Error), ("ready", Severity::Info)]);
    let out = p.process_chunk(b"\x1b[36mweb-1 |\x1b[0m Err\x1b[1mor\x1b[0m: x\n");
    assert_eq!(out, b"\x07\x1b[1;97;41mweb-1 | Error: x\x1b[0m\n".to_vec());
}

#[test]
fn unmatched_lines_are_unchanged() {
    let mut p = processor(&[("error", Severity::Error), ("ready", Severity::Info)]);
    let input = b"\x1b[32mall good\x1b[0m\nstill fine\n";
    assert_eq!(p.process_chunk(input), input.to_vec());
    assert!(p.flush().is_empty());
}

#[test]
fn partial_line_written_on_flush() {
    let mut p = processor(&[("error", Severity::Error), ("ready", Severity::Info)]);
    assert!(p.process_chunk(b"no newline").is_empty());
    assert_eq!(p.flush(), b"no newline".to_vec());
}

#[test]
fn partial_matched_line_highlighted_without_newline() {
    let mut p = processor(&[("error", Severity::Error), ("ready", Severity::Info)]);
    assert!(p.process_chunk(b"almost READY").is_empty());
    assert_eq!(p.flush(), b"\x1b[1;96malmost READY\x1b[0m".to_vec());
}

#[test]
fn overflow_passes_through_without_matching() {
    let mut p = processor(&[("error", Severity::Error), ("ready", Severity::Info)]);
    let data = vec![b'e'; MAX_LINE_LEN + 1];
    let mut data2 = b"error".to_vec();
    data2.extend(vec![b'.'; MAX_LINE_LEN]);
    assert_eq!(p.process_chunk(&data), data);
    assert_eq!(p.process_chunk(&data2), data2);
    assert!(p.flush().is_empty());
}

#[test]
fn line_split_across_chunks_is_matched_whole() {
    let mut p = processor(&[("error", Severity::Error), ("ready", Severity::Info)]);
    assert!(p.process_chunk(b"an err").is_empty());
    assert_eq!(p.process_chunk(b"or\n"), b"\x07\x1b[1;97;41man error\x1b[0m\n".to_vec());
}

#[test]
fn single_pattern_processor() {
    let mut p = processor(&[("slow query", Severity::Warn)]);
    assert_eq!(p.process_chunk(b"SLOW QUERY 3s\n"), b"\x1b[1;93mSLOW QUERY 3s\x1b[0m\n".to_vec());
    assert_eq!(p.process_chunk(b"fast\n"), b"fast\n".to_vec());
}

#[test]
fn empty_config_never_highlights() {
    let mut p = processor(&[]);
    assert_eq!(p.process_chunk(b"error\n"), b"error\n".to_vec());
}

#[test]
fn no_patterns_pass_every_chunk_through() {
    let chunks: Vec<&[u8]> = vec![
        b"\x1b[32mweb_1 |\x1b[0m ERROR boot\n",
        b"half a li",
        b"ne\r\n\nwarn",
        b"ing at end",
    ];
    let mut p = processor(&[]);
    let mut out = Vec::new();
    let mut all = Vec::new();
    for c in &chunks {
        all.extend_from_slice(c);
        out.extend(p.process_chunk(c));
    }
    out.extend(p.flush());
    assert_eq!(out, all);
}
