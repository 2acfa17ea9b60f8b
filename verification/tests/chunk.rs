use cargo_spellcheck::CheckableChunk;
use cargo_spellcheck::LineColumn;
use cargo_spellcheck::Range;
use cargo_spellcheck::Span;
use cargo_spellcheck::provenance::load_span_from;

fn lc(line: usize, column: usize) -> LineColumn {
    LineColumn { line, column }
}

fn rng(start: usize, end: usize) -> Range {
    Range { start, end }
}

fn span(sl: usize, sc: usize, el: usize, ec: usize) -> Span {
    Span {
        start: lc(sl, sc),
        end: lc(el, ec),
    }
}

#[test]
fn find_spans_simple() {
    // generated from `/// xyz`
    const SOURCE: &str = "/// xyz\nstruct Vikings;\n";
    let chunk = CheckableChunk::from_str(" xyz", vec![(rng(0, 4), span(1, 3, 1, 6))]);

    // range in `chunk.as_str()`
    // " xyz"
    let chunk_range = rng(1, 4);

    // "/// xyz"
    //  0123456
    let expected_span = span(1, 4, 1, 6);

    let range2span = chunk.find_spans(chunk_range);
    // test deals only with a single line, so we know it only is a single entry
    assert_eq!(range2span.len(), 1);

    // assure the range is correct given the chunk
    assert_eq!("xyz", &chunk.as_str()[1..4]);

    let (range, got_span) = &range2span[0];
    assert!(chunk_range.start <= range.start && range.start < chunk_range.end);
    assert!(chunk_range.start <= range.end - 1 && range.end - 1 < chunk_range.end);
    assert_eq!(
        load_span_from(SOURCE, *got_span).expect("Span extraction must work"),
        "xyz".to_owned()
    );
    assert_eq!(got_span, &expected_span);
}

const SPACES: usize = 7;
const TRIPLE_SLASH_SPACE: usize = 4;

/// Rebuild the source and chunk a fluffed-up comment block produces: each
/// line indented, a `///` marker, then the line's text; the chunk joins the
/// per-line fragments with newlines.
fn fluffed(lines: &[&str], indent: usize) -> (String, CheckableChunk) {
    let mut source = String::new();
    let mut content = String::new();
    let mut mapping = Vec::new();
    let mut offset = 0usize;
    for (i, line) in lines.iter().enumerate() {
        source.push_str(&" ".repeat(indent));
        source.push_str("///");
        source.push(' ');
        source.push_str(line);
        source.push('\n');

        if i > 0 {
            content.push('\n');
            offset += 1;
        }
        let fragment = format!(" {}", line);
        let len = fragment.chars().count();
        mapping.push((
            rng(offset, offset + len),
            span(i + 1, indent + 3, i + 1, indent + 3 + len - 1),
        ));
        content.push_str(&fragment);
        offset += len;
    }
    source.push_str("struct Vikings;\n");
    let chunk = CheckableChunk::from_string(content, mapping);
    (source, chunk)
}

#[test]
fn find_spans_multiline() {
    let (source, chunk) = fluffed(
        &[
            "xyz",
            "second",
            "third",
            "Converts a span to a range, where `self` is converted to a range reltive to the",
            "passed span `scope`.",
        ],
        SPACES,
    );
    let chunk_ranges = [rng(1, 4), rng(4 + 1 + 1 + 6 + 1 + 1, 4 + 1 + 1 + 6 + 1 + 1 + 5)];
    let expected_spans = [
        span(
            1,
            SPACES + TRIPLE_SLASH_SPACE + 0,
            1,
            SPACES + TRIPLE_SLASH_SPACE + 2,
        ),
        span(
            3,
            SPACES + TRIPLE_SLASH_SPACE + 0,
            3,
            SPACES + TRIPLE_SLASH_SPACE + 4,
        ),
    ];
    let expected_str = ["xyz", "third"];

    for ((query_range, expected_span), expected) in chunk_ranges
        .iter()
        .zip(expected_spans.iter())
        .zip(expected_str.iter())
    {
        let range2span = chunk.find_spans(*query_range);
        // test deals only with a single line, so we know it only is a single entry
        assert_eq!(range2span.len(), 1);
        let (range, got_span) = &range2span[0];
        assert!(query_range.start <= range.start && range.start < query_range.end);
        assert!(query_range.start <= range.end - 1 && range.end - 1 < query_range.end);
        assert_eq!(
            load_span_from(&source, *got_span).expect("Span extraction must work"),
            expected.to_string()
        );
        assert_eq!(got_span, expected_span);
    }
}

#[test]
fn find_spans_chyrp() {
    // generated from `#[doc=r#"..."#]`, one literal over three lines
    const SOURCE: &str = "#[doc=r#\"Amsel\nWacholderdrossel\nBuchfink\"#]\nstruct Vikings;\n";
    let chunk = CheckableChunk::from_str(
        "Amsel\nWacholderdrossel\nBuchfink",
        vec![(rng(0, 5 + 1 + 16 + 1 + 8), span(1, 0 + 9, 3, 7))],
    );

    let chunk_ranges = [rng(0, 5 + 1 + 16 + 1 + 8)];
    // prefix is #[doc=r#" , suffix is pointeless
    let expected_spans = [span(1, 0 + 9, 3, 7)];

    assert_eq!(
        expected_spans[0]
            .to_content_range(&chunk)
            .expect("Must be ok to extract span from chunk"),
        chunk_ranges[0]
    );

    const EXPECTED_STR: &str = "Amsel\nWacholderdrossel\nBuchfink";
    assert_eq!(EXPECTED_STR, chunk.as_str());

    for (query_range, expected_span) in chunk_ranges.iter().zip(expected_spans.iter()) {
        let range2span = chunk.find_spans(*query_range);
        assert_eq!(range2span.len(), 1);
        let (range, got_span) = &range2span[0];
        assert!(query_range.start <= range.start && range.start < query_range.end);
        assert!(query_range.start <= range.end - 1 && range.end - 1 < query_range.end);
        assert_eq!(
            load_span_from(SOURCE, *got_span).expect("Span extraction must work"),
            EXPECTED_STR.to_owned()
        );
        assert_eq!(got_span, expected_spans.first().unwrap());
    }
}

#[test]
fn single_fragment_with_join_space() {
    // unit content " xyz": one leading join space that maps to nothing,
    // then a single fragment for the source text `xyz`
    let chunk = CheckableChunk::from_str(" xyz", vec![(rng(1, 4), span(1, 4, 1, 6))]);
    let result = chunk.find_spans(rng(1, 4));
    assert_eq!(result.len(), 1);
    assert_eq!(result[0].0, rng(1, 4));
    assert_eq!(result[0].1, span(1, 4, 1, 6));
}

#[test]
fn query_spanning_two_fragments() {
    // two fragments joined by one gap character at index 4
    let chunk = CheckableChunk::from_str(
        " one\n two",
        vec![(rng(0, 4), span(1, 3, 1, 6)), (rng(5, 9), span(2, 3, 2, 6))],
    );
    let result = chunk.find_spans(rng(2, 8));
    assert_eq!(result.len(), 2);
    assert_eq!(result[0].0, rng(2, 4));
    assert_eq!(result[0].1, span(1, 5, 1, 6));
    assert_eq!(result[1].0, rng(5, 8));
    assert_eq!(result[1].1, span(2, 3, 2, 5));
}

#[test]
fn query_inside_gap_is_empty() {
    let chunk = CheckableChunk::from_str(
        " one\n two",
        vec![(rng(0, 4), span(1, 3, 1, 6)), (rng(5, 9), span(2, 3, 2, 6))],
    );
    assert_eq!(chunk.find_spans(rng(4, 5)).len(), 0);
}

#[test]
fn enlarging_query_keeps_entries() {
    let chunk = CheckableChunk::from_str(
        " one\n two",
        vec![(rng(0, 4), span(1, 3, 1, 6)), (rng(5, 9), span(2, 3, 2, 6))],
    );
    let small = chunk.find_spans(rng(2, 4));
    let big = chunk.find_spans(rng(1, 8));
    assert_eq!(small.len(), 1);
    assert_eq!(big.len(), 2);
    // the entry of the small query is covered by the first entry of the big one
    assert!(big[0].0.start <= small[0].0.start && small[0].0.end <= big[0].0.end);
}

#[test]
fn multiline_fragment_replay() {
    // one fragment whose own text crosses a line break
    let chunk = CheckableChunk::from_str("ab\ncd", vec![(rng(0, 5), span(1, 9, 2, 1))]);
    let result = chunk.find_spans(rng(3, 5));
    assert_eq!(result.len(), 1);
    assert_eq!(result[0].0, rng(3, 5));
    assert_eq!(result[0].1, span(2, 0, 2, 1));
}

#[test]
fn round_trip_single_line_subranges() {
    // a fragment of five characters at line 3, column 10; every sub-range
    // resolves to the matching column window, and re-extracting it from the
    // source yields exactly the queried characters
    let source = "a
b
          hello
";
    let chunk = CheckableChunk::from_str("hello", vec![(rng(0, 5), span(3, 10, 3, 14))]);
    for a in 0..5usize {
        for b in (a + 1)..=5usize {
            let result = chunk.find_spans(rng(a, b));
            assert_eq!(result.len(), 1);
            assert_eq!(result[0].0, rng(a, b));
            assert_eq!(result[0].1, span(3, 10 + a, 3, 10 + b - 1));
            assert_eq!(
                load_span_from(source, result[0].1),
                Some(chunk.as_str()[a..b].to_string())
            );
        }
    }
}

#[test]
fn to_content_range_misses_outside() {
    let chunk = CheckableChunk::from_str(" xyz", vec![(rng(1, 4), span(1, 4, 1, 6))]);
    assert!(span(2, 0, 2, 2).to_content_range(&chunk).is_none());
}

#[test]
fn chunk_accessors() {
    let chunk = CheckableChunk::from_str(" xyz", vec![(rng(1, 4), span(1, 4, 1, 6))]);
    assert_eq!(chunk.len_in_chars(), 4);
    assert_eq!(chunk.fragment_count(), 1);
    assert_eq!(chunk.fragments()[0].0, rng(1, 4));
    assert_eq!(chunk.as_str(), " xyz");
}
