use genparse::EOFError;
use genparse::EOFErrorKind;
use genparse::GenericParser;

fn cursor<'s>(text: &'s str) -> GenericParser<'s, EOFError> {
    GenericParser::new(text, "test.txt")
}

#[test]
fn rendering_is_deterministic() {
    let source = "let x = 1;\nlet y = ;\nlet z = 3;\n";
    let mut p = cursor(source);
    p.until(";");
    let inner = p.create_error(EOFError, true);
    let e = p.create_error_with_suberrors(EOFError, false, vec![inner]);
    let once = e.render_with_context(source, false);
    let twice = e.render_with_context(source, false);
    assert_eq!(once, twice);
    assert_eq!(once.as_bytes(), twice.as_bytes());
}

#[test]
fn rendering_shows_kind_location_and_context_line() {
    let source = "let x = 1;\nlet y = ;\n";
    let mut p = cursor(source);
    p.until_any(&["y"]);
    let e = p.create_error(EOFError, true);
    let text = e.render_with_context(source, false);
    assert!(text.starts_with("Error: Unexpected EOF\n"));
    assert!(text.contains("test.txt:2:5"));
    assert!(text.contains("let y = ;"));
    assert!(text.contains("\u{256d}\u{2574}"));
    assert!(text.contains("\u{256f}\n"));
}

#[test]
fn filtering_keeps_only_important_alternatives() {
    let source = "alpha\nbeta\n";
    let p = cursor(source);
    let a = p.create_error(EOFError, false);
    let b = p.create_error(EOFError, true);
    let c = p.create_error(EOFError, false);
    let e = p.create_error_with_suberrors(EOFError, false, vec![a, b, c]);

    let filtered = e.render_with_context(source, true);
    let unfiltered = e.render_with_context(source, false);

    assert_eq!(filtered.matches("Error: Unexpected EOF").count(), 2);
    assert_eq!(unfiltered.matches("Error: Unexpected EOF").count(), 4);
    assert_eq!(filtered.matches("\u{256d}\u{2574}Or\u{2576}\u{256f}").count(), 1);
    assert_eq!(unfiltered.matches("\u{256d}\u{2574}Or\u{2576}\u{256f}").count(), 1);
    assert_eq!(unfiltered.matches("\u{251c}\u{2574}Or\n").count(), 2);
    assert_eq!(filtered.matches("\u{251c}\u{2574}Or\n").count(), 0);
}

#[test]
fn no_group_is_printed_when_every_alternative_is_filtered_out() {
    let source = "alpha\n";
    let p = cursor(source);
    let a = p.create_error(EOFError, false);
    let e = p.create_error_with_suberrors(EOFError, false, vec![a]);
    let filtered = e.render_with_context(source, true);
    assert_eq!(filtered.matches("Or").count(), 0);
    let unfiltered = e.render_with_context(source, false);
    assert_eq!(unfiltered.matches("\u{256d}\u{2574}Or\u{2576}\u{256f}").count(), 1);
}

#[test]
fn alternatives_render_in_original_order_and_nest() {
    let source = "one\ntwo\n";
    let mut p = cursor(source);
    let deep = p.create_error(EOFError, true);
    let mid = p.create_error_with_suberrors(EOFError, true, vec![deep]);
    p.until("t");
    let late = p.create_error(EOFError, true);
    let e = p.create_error_with_suberrors(EOFError, false, vec![mid, late]);
    let text = e.render_with_context(source, false);
    // the nested group renders behind a deeper bar prefix
    assert!(text.contains("\u{2502} \u{2502} "));
    // the first alternative (anchored at 1:1) renders before the second
    // (anchored, like the root, at 2:1)
    assert_eq!(text.matches("test.txt:2:1").count(), 2);
    let first_alt = text.find("test.txt:1:1").unwrap();
    let second_alt = text.rfind("test.txt:2:1").unwrap();
    assert!(first_alt < second_alt);
}

#[test]
fn indentation_is_stripped_with_an_ellipsis() {
    let source = "    indented line\n";
    let mut p = cursor(source);
    p.until("l");
    let e = p.create_error(EOFError, true);
    let text = e.render_with_context(source, false);
    assert!(text.contains("\u{2026} indented line"));
}

#[test]
fn the_eof_kind_displays_itself() {
    let k = EOFError;
    assert_eq!(k.describe(), "Unexpected EOF");
    let made = EOFError::create_eof();
    assert_eq!(made.describe(), "Unexpected EOF");
}

#[test]
fn line_numbers_are_padded_to_five_columns() {
    let source = "first\nsecond\n";
    let p = cursor(source);
    let e = p.create_error(EOFError, false);
    let text = e.render_with_context(source, false);
    assert!(text.contains("1    \u{2502} first"));
}

#[test]
fn sentinel_columns_fall_back_to_the_line() {
    let source = "abcdef\n";
    let p = cursor(source);
    let mut e = p.create_error(EOFError, false);
    e.column_start = usize::MAX;
    e.column_end = usize::MAX;
    let text = e.render_with_context(source, false);
    // unknown start shows as column 0 displayed 1-based, no leading rule
    assert!(text.contains("test.txt:1:0"));
    // carets span to the end of the printed line: length 6, minus one
    assert_eq!(text.matches('\u{2534}').count(), 5);
    assert_eq!(text.matches('\u{2500}').count(), 1);
}

#[test]
fn line_ranges_are_clamped_to_the_text() {
    let source = "only\n";
    let p = cursor(source);
    let mut e = p.create_error(EOFError, false);
    e.line_start = 40;
    e.line_end = 41;
    let text = e.render_with_context(source, false);
    assert!(text.contains("only"));
    assert!(text.contains("test.txt:40:1"));
}

#[test]
fn a_prefix_indents_every_line() {
    let source = "abc\n";
    let p = cursor(source);
    let e = p.create_error(EOFError, false);
    let text = e.render_with_context_prefix(source, ">> ", false);
    for line in text.lines() {
        assert!(line.starts_with(">> "));
    }
}

#[test]
fn rendering_empty_source_prints_no_context_lines() {
    let source = "";
    let p = cursor(source);
    let e = p.create_error(EOFError, false);
    let text = e.render_with_context(source, false);
    assert!(text.starts_with("Error: Unexpected EOF\n"));
    assert!(text.contains("test.txt:1:1"));
    assert_eq!(text.matches('\u{2502}').count(), 1);
}
