use hypr_socket_watch::framer::LineFramer;

fn feed_str(framer: &mut LineFramer, chunk: &str) -> Vec<String> {
    framer
        .feed(chunk.as_bytes())
        .into_iter()
        .map(|l| String::from_utf8(l).unwrap())
        .collect()
}

#[test]
fn single_chunk_yields_lines_in_order() {
    let mut framer = LineFramer::new();
    let lines = feed_str(&mut framer, "alpha\nbeta\ngamma\n");
    assert_eq!(lines, vec!["alpha".to_string(), "beta".to_string(), "gamma".to_string()]);
}

#[test]
fn unterminated_tail_is_carried_over() {
    let mut framer = LineFramer::new();
    let lines = feed_str(&mut framer, "alpha\nbet");
    assert_eq!(lines, vec!["alpha".to_string()]);
    let lines = feed_str(&mut framer, "a\n");
    assert_eq!(lines, vec!["beta".to_string()]);
}

#[test]
fn terminator_at_chunk_boundary() {
    let mut framer = LineFramer::new();
    let lines = feed_str(&mut framer, "alpha");
    assert!(lines.is_empty());
    let lines = feed_str(&mut framer, "\nbeta\n");
    assert_eq!(lines, vec!["alpha".to_string(), "beta".to_string()]);
}

#[test]
fn empty_segments_are_suppressed() {
    let mut framer = LineFramer::new();
    let lines = feed_str(&mut framer, "\n\nalpha\n\n\nbeta\n\n");
    assert_eq!(lines, vec!["alpha".to_string(), "beta".to_string()]);
}

#[test]
fn empty_chunk_yields_nothing() {
    let mut framer = LineFramer::new();
    let lines = feed_str(&mut framer, "");
    assert!(lines.is_empty());
}

#[test]
fn chunk_splits_never_change_the_framed_lines() {
    let input = "focusedmon>>DP-1\nworkspace>>3\nworkspacev2>>3,web\n";
    let expected: Vec<String> = {
        let mut framer = LineFramer::new();
        feed_str(&mut framer, input)
    };
    // Split at every byte offset, including mid-line and mid-terminator.
    for cut in 0..=input.len() {
        let mut framer = LineFramer::new();
        let mut lines = feed_str(&mut framer, &input[..cut]);
        lines.extend(feed_str(&mut framer, &input[cut..]));
        assert_eq!(lines, expected, "split at {cut} changed the lines");
    }
    // One byte at a time.
    let mut framer = LineFramer::new();
    let mut lines = Vec::new();
    for b in input.as_bytes() {
        lines.extend(
            framer
                .feed(std::slice::from_ref(b))
                .into_iter()
                .map(|l| String::from_utf8(l).unwrap()),
        );
    }
    assert_eq!(lines, expected);
}
