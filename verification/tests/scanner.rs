use genparse::EOFError;
use genparse::GenericParser;
use genparse::GenericSubParser;

fn cursor<'s>(text: &'s str) -> GenericParser<'s, EOFError> {
    GenericParser::new(text, "test.txt")
}

#[test]
fn checkpoint_rollback_restores_offset() {
    let mut p = cursor("hello world");
    let g = p.subparser();
    assert_eq!(p.consume_if("hello").unwrap(), true);
    assert_eq!(p.consume_if(" ").unwrap(), true);
    assert_eq!(p.source_left(), "world");
    g.finish_error(&mut p);
    assert_eq!(p.source_left(), "hello world");
    assert_eq!(p.level(), 0);
}

#[test]
fn checkpoint_rollback_after_many_operations() {
    let mut p = cursor("a,a,a,a and more text here");
    let g = GenericSubParser::new(&mut p);
    p.while_any_delimited(&["a"], &[","]);
    p.skip(&[" "]);
    let _ = p.eat(3);
    p.until(" ");
    g.finish_error(&mut p);
    assert_eq!(p.source_left(), "a,a,a,a and more text here");
}

#[test]
fn checkpoint_commit_keeps_offset() {
    let mut p = cursor("hello world");
    let g = p.subparser();
    assert_eq!(p.consume_if("hello").unwrap(), true);
    g.finish(&mut p);
    assert_eq!(p.source_left(), " world");
    assert_eq!(p.level(), 0);
}

#[test]
fn nested_checkpoints_resolve_innermost_first() {
    let mut p = cursor("one two three");
    let outer = p.subparser();
    assert_eq!(p.consume_if("one ").unwrap(), true);
    let inner = p.subparser();
    assert_eq!(p.consume_if("two ").unwrap(), true);
    inner.finish_error(&mut p);
    assert_eq!(p.source_left(), "two three");
    outer.finish(&mut p);
    assert_eq!(p.source_left(), "two three");
    assert_eq!(p.level(), 0);

    let outer2 = p.subparser();
    assert_eq!(p.consume_if("two ").unwrap(), true);
    let inner2 = p.subparser();
    assert_eq!(p.consume_if("three").unwrap(), true);
    inner2.finish(&mut p);
    outer2.finish_error(&mut p);
    assert_eq!(p.source_left(), "two three");
}

#[test]
fn offsets_stay_on_char_boundaries() {
    // one-, two-, three- and four-byte scalars
    let mut p = cursor("a\u{e9}\u{20ac}\u{1d11e}x");
    assert_eq!(p.eat(1).unwrap(), "a");
    assert_eq!(p.eat(1).unwrap(), "\u{e9}");
    assert_eq!(p.eat(2).unwrap(), "\u{20ac}\u{1d11e}");
    assert_eq!(p.source_left(), "x");

    let mut q = cursor("a\u{e9}\u{20ac}\u{1d11e}x");
    assert_eq!(q.until("x"), "a\u{e9}\u{20ac}\u{1d11e}");
    assert_eq!(q.source_left(), "x");

    let mut empty = cursor("");
    assert!(empty.is_eof());
    assert!(empty.test("a").is_err());
}

#[test]
fn eat_past_end_is_an_error() {
    let mut p = cursor("h\u{e9}y");
    let r = p.eat(7);
    assert!(r.is_err());
    assert!(p.is_eof());
}

#[test]
fn tests_are_idempotent_and_do_not_consume() {
    let p = cursor("abc");
    assert_eq!(p.test("ab").unwrap(), true);
    assert_eq!(p.test("ab").unwrap(), true);
    assert_eq!(p.test("b").unwrap(), false);
    assert_eq!(p.test("b").unwrap(), false);
    assert_eq!(p.test_any(&["x", "a"]).unwrap(), true);
    assert_eq!(p.test_any(&["x", "a"]).unwrap(), true);
    assert_eq!(p.source_left(), "abc");
}

#[test]
fn scan_until_stops_before_ending() {
    let mut p = cursor("abcXdef");
    assert_eq!(p.until("X"), "abc");
    assert_eq!(p.source_left(), "Xdef");
}

#[test]
fn scan_until_consumes_all_without_ending() {
    let mut p = cursor("abcdef");
    assert_eq!(p.until("Z"), "abcdef");
    assert!(p.is_eof());
}

#[test]
fn scan_until_any_stops_at_first_candidate() {
    let mut p = cursor("abc;def,ghi");
    assert_eq!(p.until_any(&[",", ";"]), "abc");
    assert_eq!(p.source_left(), ";def,ghi");
}

#[test]
fn delimited_list_honours_the_delimiter_bound() {
    let mut p = cursor("a,a,a,a");
    assert_eq!(p.while_any_delimited_counted(&["a"], &[","], 2), "a,a,a");
    assert_eq!(p.source_left(), ",a");
}

#[test]
fn delimited_list_keeps_item_without_delimiter() {
    let mut p = cursor("a,b c");
    assert_eq!(p.while_any_delimited(&["a", "b"], &[","]), "a,b");
    assert_eq!(p.source_left(), " c");
}

#[test]
fn delimited_list_leaves_dangling_delimiter() {
    let mut p = cursor("a,a,");
    assert_eq!(p.while_any_delimited(&["a"], &[","]), "a,a");
    assert_eq!(p.source_left(), ",");
}

#[test]
fn escape_aware_scan_skips_escaped_delimiters() {
    let mut p = cursor("ab\\\"cd\"ef");
    assert_eq!(p.until_including(&["\""], &["\\\""]), "ab\\\"cd");
    assert_eq!(p.source_left(), "\"ef");
}

#[test]
fn escape_aware_scan_stops_at_end_of_input() {
    let mut p = cursor("abc");
    assert_eq!(p.until_including(&["\""], &["\\\""]), "abc");
    assert!(p.is_eof());
}

#[test]
fn while_any_takes_first_match_each_round() {
    let mut p = cursor("ababac");
    assert_eq!(p.while_any(&["ab", "a"]), "ababa");
    assert_eq!(p.source_left(), "c");
}

#[test]
fn skip_discards_blanks() {
    let mut p = cursor("  \t x");
    p.skip(&[" ", "\t"]);
    assert_eq!(p.source_left(), "x");
}

#[test]
fn then_any_consumes_first_match() {
    let mut p = cursor("abc");
    assert_eq!(p.then_any(&["x", "ab"]).unwrap(), true);
    assert_eq!(p.source_left(), "c");
    assert_eq!(p.then_any(&["x", "y"]).unwrap(), false);
    assert_eq!(p.source_left(), "c");
}

#[test]
fn line_is_three_after_two_newlines() {
    let mut p = cursor("\n\nabc");
    assert_eq!(p.consume_if("\n").unwrap(), true);
    assert_eq!(p.consume_if("\n").unwrap(), true);
    assert_eq!(p.get_line(), 3);
    let e = p.create_error(EOFError, false);
    assert_eq!(e.line_start, 3);
    assert_eq!(e.line_end, 3);
}

#[test]
fn line_and_column_track_the_offset() {
    let mut p = cursor("ab\ncd");
    assert_eq!(p.get_line(), 1);
    assert_eq!(p.get_column(), 0);
    assert_eq!(p.consume_if("ab").unwrap(), true);
    assert_eq!(p.get_line(), 1);
    assert_eq!(p.get_column(), 2);
    assert_eq!(p.consume_if("\ncd").unwrap(), true);
    assert_eq!(p.get_line(), 2);
    assert_eq!(p.get_column(), 2);
    assert_eq!(p.get_line_range(), (2, 2));
    assert_eq!(p.get_column_range(), (2, 2));
}

#[test]
fn column_counts_characters_not_bytes() {
    let mut p = cursor("\u{e9}\u{20ac}x");
    assert_eq!(p.eat(2).unwrap(), "\u{e9}\u{20ac}");
    assert_eq!(p.get_column(), 2);
}

#[test]
fn eof_error_is_important_and_carries_the_label() {
    let mut p = cursor("ab");
    let _ = p.eat(2);
    let r = p.test("a");
    let e = r.unwrap_err();
    assert!(e.important);
    assert_eq!(e.filename, "test.txt");
    assert_eq!(e.line_start, 1);
    assert_eq!(e.suberrors.len(), 0);
}

#[test]
fn accessors_report_the_construction_values() {
    let p = cursor("abc");
    assert_eq!(p.filename(), "test.txt");
    assert_eq!(p.get_source(), "abc");
    assert_eq!(p.level(), 0);
    assert!(!p.is_eof());
}

#[test]
fn create_error_with_suberrors_keeps_order() {
    let p = cursor("abc");
    let a = p.create_error(EOFError, false);
    let b = p.create_error(EOFError, true);
    let e = p.create_error_with_suberrors(EOFError, false, vec![a, b]);
    assert_eq!(e.suberrors.len(), 2);
    assert!(!e.suberrors[0].important);
    assert!(e.suberrors[1].important);
}
