use cargo_spellcheck::CheckableChunk;
use cargo_spellcheck::LineColumn;
use cargo_spellcheck::Overlay;
use cargo_spellcheck::Range;
use cargo_spellcheck::Span;

fn rng(start: usize, end: usize) -> Range {
    Range { start, end }
}

fn span(sl: usize, sc: usize, el: usize, ec: usize) -> Span {
    Span {
        start: LineColumn {
            line: sl,
            column: sc,
        },
        end: LineColumn {
            line: el,
            column: ec,
        },
    }
}

#[test]
fn identity_overlay_resolves_like_the_chunk() {
    let chunk = CheckableChunk::from_str(" xyz", vec![(rng(1, 4), span(1, 4, 1, 6))]);
    let overlay = Overlay::identity(&chunk);
    assert_eq!(overlay.as_str(), " xyz");
    let direct = chunk.find_spans(rng(1, 4));
    let via_overlay = overlay.find_spans(&chunk, rng(1, 4));
    assert_eq!(direct, via_overlay);
}

#[test]
fn erased_overlay_translates_offsets() {
    // chunk text `see *bold* end`; an erasure pass stripped the `*` marks,
    // leaving `see bold end` and a translation table back into the chunk
    let chunk = CheckableChunk::from_str(
        "see *bold* end",
        vec![(rng(0, 14), span(1, 0, 1, 13))],
    );
    let overlay = Overlay::new(
        "see bold end".to_string(),
        vec![
            (rng(0, 4), rng(0, 4)),
            (rng(4, 8), rng(5, 9)),
            (rng(8, 12), rng(10, 14)),
        ],
        14,
    );
    // `bold` sits at 4..8 in the overlay and at 5..9 in the chunk
    let translated = overlay.translate(rng(4, 8));
    assert_eq!(translated, vec![rng(5, 9)]);
    let resolved = overlay.find_spans(&chunk, rng(4, 8));
    assert_eq!(resolved.len(), 1);
    assert_eq!(resolved[0].0, rng(5, 9));
    assert_eq!(resolved[0].1, span(1, 5, 1, 8));
}

#[test]
fn overlay_range_split_at_table_boundary() {
    let chunk = CheckableChunk::from_str(
        "see *bold* end",
        vec![(rng(0, 14), span(1, 0, 1, 13))],
    );
    let overlay = Overlay::new(
        "see bold end".to_string(),
        vec![
            (rng(0, 4), rng(0, 4)),
            (rng(4, 8), rng(5, 9)),
            (rng(8, 12), rng(10, 14)),
        ],
        14,
    );
    // `e bo` crosses the erased `*`: two chunk ranges come back
    let translated = overlay.translate(rng(2, 6));
    assert_eq!(translated, vec![rng(2, 4), rng(5, 7)]);
    let resolved = overlay.find_spans(&chunk, rng(2, 6));
    assert_eq!(resolved.len(), 2);
    assert_eq!(resolved[0].0, rng(2, 4));
    assert_eq!(resolved[1].0, rng(5, 7));
}
