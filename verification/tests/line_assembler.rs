use sentinel::runtime::events::LineEvent;
use sentinel::runtime::line_assembler::{LineAssembler, MAX_LINE_LEN};

fn bytes_of(events: &[LineEvent]) -> Vec<u8> {
    let mut out = Vec::new();
    for e in events {
        match e {
            LineEvent::Line(l) => {
                out.extend_from_slice(l);
                out.push(b'\n');
            }
            LineEvent::Partial(p) => out.extend_from_slice(p),
            LineEvent::Overflow(o) => out.extend_from_slice(o),
        }
    }
    out
}

#[test]
fn assembler_single_line() {
    let mut a = LineAssembler::new();
    let ev = a.push(b"2024-01-01 ERROR something went wrong\n");
    assert_eq!(ev, vec![LineEvent::Line(b"2024-01-01 ERROR something went wrong".to_vec())]);
    assert!(a.flush().is_empty());
}

#[test]
fn assembler_several_lines_in_order() {
    let mut a = LineAssembler::new();
    let ev = a.push(b"one\ntwo\n\nthree");
    assert_eq!(
        ev,
        vec![
            LineEvent::Line(b"one".to_vec()),
            LineEvent::Line(b"two".to_vec()),
            LineEvent::Line(Vec::new()),
        ]
    );
    assert_eq!(a.flush(), vec![LineEvent::Partial(b"three".to_vec())]);
    assert!(a.flush().is_empty());
}

#[test]
fn assembler_line_split_across_chunks() {
    let mut a = LineAssembler::new();
    assert!(a.push(b"hel").is_empty());
    assert!(a.push(b"lo wor").is_empty());
    assert_eq!(a.push(b"ld\nnext"), vec![LineEvent::Line(b"hello world".to_vec())]);
    assert_eq!(a.flush(), vec![LineEvent::Partial(b"next".to_vec())]);
}

#[test]
fn assembler_keeps_carriage_return() {
    let mut a = LineAssembler::new();
    assert_eq!(a.push(b"dos line\r\n"), vec![LineEvent::Line(b"dos line\r".to_vec())]);
}

#[test]
fn assembler_many_short_lines() {
    let input = "hello world\n".repeat(10_000);
    let mut a = LineAssembler::new();
    let ev = a.push(input.as_bytes());
    assert_eq!(ev.len(), 10_000);
    assert!(ev.iter().all(|e| *e == LineEvent::Line(b"hello world".to_vec())));
}

#[test]
fn assembler_large_line_grows_ring() {
    let input = "a".repeat(200_000) + "\n";
    let mut a = LineAssembler::new();
    let ev = a.push(input.as_bytes());
    assert_eq!(ev, vec![LineEvent::Line(vec![b'a'; 200_000])]);
}

#[test]
fn assembler_overflow_without_newline() {
    let mut a = LineAssembler::new();
    let data = vec![b'x'; MAX_LINE_LEN + 1];
    let ev = a.push(&data);
    assert_eq!(ev, vec![LineEvent::Overflow(data.clone())]);
    assert!(a.flush().is_empty());
}

#[test]
fn assembler_exactly_at_limit_is_held() {
    let mut a = LineAssembler::new();
    let data = vec![b'y'; MAX_LINE_LEN];
    assert!(a.push(&data).is_empty());
    assert_eq!(a.flush(), vec![LineEvent::Partial(data)]);
}

#[test]
fn assembler_overflow_after_lines() {
    let mut a = LineAssembler::new();
    let mut data = b"first\n".to_vec();
    data.extend(vec![b'z'; MAX_LINE_LEN + 5]);
    let ev = a.push(&data);
    assert_eq!(
        ev,
        vec![
            LineEvent::Line(b"first".to_vec()),
            LineEvent::Overflow(vec![b'z'; MAX_LINE_LEN + 5]),
        ]
    );
}

#[test]
fn assembler_wrapped_full_ring_emits_line_once() {
    // Fill the ring exactly after the read index has moved, so the stored
    // bytes wrap around the end and the buffer is full.
    let mut a = LineAssembler::new();
    assert_eq!(a.push(b"aaaaaaaaaa\n"), vec![LineEvent::Line(b"aaaaaaaaaa".to_vec())]);
    let mut data = vec![b'b'; 16383];
    data.push(b'\n');
    let ev = a.push(&data);
    assert_eq!(ev, vec![LineEvent::Line(vec![b'b'; 16383])]);
    assert!(a.flush().is_empty());
}

#[test]
fn assembler_wrapped_line_spanning_end() {
    let mut a = LineAssembler::new();
    assert_eq!(a.push(&vec![b'c'; 100]).len(), 0);
    let mut d = vec![b'\n'];
    d.extend(vec![b'd'; 16000]);
    assert_eq!(a.push(&d), vec![LineEvent::Line(vec![b'c'; 100])]);
    let mut e = vec![b'e'; 300];
    e.push(b'\n');
    e.extend(b"tail");
    let mut expected = vec![b'd'; 16000];
    expected.extend(vec![b'e'; 300]);
    assert_eq!(a.push(&e), vec![LineEvent::Line(expected)]);
    assert_eq!(a.flush(), vec![LineEvent::Partial(b"tail".to_vec())]);
}

#[test]
fn assembler_push_then_flush_loses_nothing() {
    let chunks: Vec<&[u8]> = vec![b"ab\ncd", b"ef\n\ngh", b"\r\nij", b"k"];
    let mut a = LineAssembler::new();
    let mut all = Vec::new();
    let mut events = Vec::new();
    for c in &chunks {
        all.extend_from_slice(c);
        events.extend(a.push(c));
    }
    events.extend(a.flush());
    assert_eq!(bytes_of(&events), all);
    for e in &events {
        if let LineEvent::Line(l) = e {
            assert!(!l.contains(&b'\n'));
        }
    }
}

#[test]
fn assembler_chunk_boundaries_do_not_change_lines() {
    let data: &[u8] = b"alpha\nbeta\r\ngam";
    for cut in 0..=data.len() {
        let mut split = LineAssembler::new();
        let mut ev = split.push(&data[..cut]);
        ev.extend(split.push(&data[cut..]));
        let mut whole = LineAssembler::new();
        assert_eq!(ev, whole.push(data));
        assert_eq!(split.flush(), whole.flush());
    }
}

#[test]
fn assembler_many_chunks_with_overflow_lose_nothing() {
    let long = vec![b'x'; MAX_LINE_LEN + 10];
    let chunks: Vec<Vec<u8>> = vec![b"one\ntw".to_vec(), long.clone(), b"o\nthree".to_vec(), b"".to_vec()];
    let mut a = LineAssembler::new();
    let mut all = Vec::new();
    let mut events = Vec::new();
    for c in &chunks {
        all.extend_from_slice(c);
        events.extend(a.push(c));
    }
    events.extend(a.flush());
    assert_eq!(bytes_of(&events), all);
    assert!(events.iter().any(|e| matches!(e, LineEvent::Overflow(_))));
    assert_eq!(a.flush(), Vec::<LineEvent>::new());
}
