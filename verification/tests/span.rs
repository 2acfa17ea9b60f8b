use cargo_spellcheck::LineColumn;
use cargo_spellcheck::Span;
use cargo_spellcheck::provenance::load_span_from;

fn span(sl: usize, sc: usize, el: usize, ec: usize) -> Span {
    Span {
        start: LineColumn {
            line: sl,
            column: sc,
        },
        end: LineColumn {
            line: el,
            column: ec,
        },
    }
}

#[test]
fn one_line_len_counts_inclusive_columns() {
    assert_eq!(span(1, 4, 1, 6).one_line_len(), Some(3));
    assert_eq!(span(2, 0, 2, 0).one_line_len(), Some(1));
    assert_eq!(span(1, 4, 2, 1).one_line_len(), None);
}

#[test]
fn load_span_single_line() {
    let source = "/// xyz\nstruct Vikings;\n";
    assert_eq!(load_span_from(source, span(1, 4, 1, 6)), Some("xyz".to_string()));
    assert_eq!(load_span_from(source, span(2, 0, 2, 5)), Some("struct".to_string()));
}

#[test]
fn load_span_across_lines() {
    let source = "ab\ncd\nef";
    assert_eq!(load_span_from(source, span(1, 1, 2, 0)), Some("b\nc".to_string()));
}

#[test]
fn load_span_out_of_bounds_is_none() {
    let source = "ab";
    assert_eq!(load_span_from(source, span(1, 0, 1, 5)), None);
    assert_eq!(load_span_from(source, span(3, 0, 3, 1)), None);
    assert_eq!(load_span_from(source, span(1, 1, 1, 0)), None);
}
