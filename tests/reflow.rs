use autowrap::chars::char_is_whitespace;
use autowrap::edit::{apply_wrap, map_position, remap_pending};
use autowrap::lines::line_bounds;
use autowrap::locate::locate;
use autowrap::pass::WrapPass;
use autowrap::position::{position_at, FilePosition};
use autowrap::request::{collect_wraps, request_for_cursor, WrapRequest};

fn chars(s: &str) -> Vec<char> {
    s.chars().collect()
}

fn text_of(v: &[char]) -> String {
    v.iter().collect()
}

/// Runs one pass over `text` with the same indentation for every edit.
fn run_pass(text: &mut Vec<char>, cursors: &mut Vec<usize>, width: usize, indent: &str) -> usize {
    let indent = chars(indent);
    let mut pass = WrapPass::start(text, cursors, width, true);
    let mut edits = 0;
    while !pass.is_done() {
        pass.apply_next(text, cursors, &indent);
        edits += 1;
    }
    edits
}

#[test]
fn whitespace_class() {
    assert!(char_is_whitespace(' '));
    assert!(char_is_whitespace('\t'));
    assert!(char_is_whitespace('\u{00A0}'));
    assert!(char_is_whitespace('\u{2003}'));
    assert!(char_is_whitespace('\u{200B}'));
    assert!(char_is_whitespace('\u{3000}'));
    assert!(!char_is_whitespace('\n'));
    assert!(!char_is_whitespace('a'));
    assert!(!char_is_whitespace('\u{200C}'));
}

#[test]
fn locate_quick_brown_fox() {
    let line = chars("the quick brown fox jumps");
    assert_eq!(locate(&line, 20), Some(19));
}

#[test]
fn locate_long_word_overflows_to_next_space() {
    let line = chars("superlongword next");
    assert_eq!(locate(&line, 5), Some(13));
}

#[test]
fn locate_prefers_last_space_within_width() {
    let line = chars("a b c d e f g h");
    assert_eq!(locate(&line, 6), Some(5));
    assert_eq!(locate(&line, 7), Some(7));
    assert_eq!(locate(&line, 8), Some(7));
}

#[test]
fn locate_space_at_width_counts_as_within() {
    let line = chars("ab cd fg");
    assert_eq!(locate(&line, 5), Some(5));
    assert_eq!(locate(&line, 4), Some(2));
    let word = chars("abcde fgh");
    assert_eq!(locate(&word, 5), Some(5));
    assert_eq!(locate(&word, 4), Some(5));
}

#[test]
fn pass_breaks_at_space_on_width() {
    let mut text = chars("ab cd fg");
    let mut cursors = vec![8];
    assert_eq!(run_pass(&mut text, &mut cursors, 5, ""), 1);
    assert_eq!(text_of(&text), "ab cd\nfg");
}

#[test]
fn locate_without_whitespace() {
    let line = chars("abcdefghijkl");
    assert_eq!(locate(&line, 4), None);
    assert_eq!(locate(&[], 4), None);
}

#[test]
fn line_bounds_of_middle_and_last_line() {
    let text = chars("ab\ncde\nf");
    assert_eq!(line_bounds(&text, 0), (0, 2));
    assert_eq!(line_bounds(&text, 2), (0, 2));
    assert_eq!(line_bounds(&text, 4), (3, 6));
    assert_eq!(line_bounds(&text, 8), (7, 8));
    let trailing = chars("ab\n");
    assert_eq!(line_bounds(&trailing, 3), (3, 3));
}

#[test]
fn request_fox_example() {
    let text = chars("the quick brown fox jumps");
    let r = request_for_cursor(&text, 25, 20);
    assert_eq!(r, Some(WrapRequest { break_offset: 19, skip_to_offset: 20 }));
}

#[test]
fn request_fitting_line_is_none() {
    let text = chars("short line\nthe quick brown fox jumps");
    assert_eq!(request_for_cursor(&text, 3, 20), None);
    assert_eq!(request_for_cursor(&text, 3, 10), None);
    assert_eq!(request_for_cursor(&text, 3, 9), Some(WrapRequest { break_offset: 5, skip_to_offset: 6 }));
}

#[test]
fn request_zero_width_is_none() {
    let text = chars("a b c");
    assert_eq!(request_for_cursor(&text, 0, 0), None);
}

#[test]
fn request_no_whitespace_is_none() {
    let text = chars("abcdefghijklmnop");
    assert_eq!(request_for_cursor(&text, 16, 4), None);
}

#[test]
fn request_swallows_whitespace_run() {
    let text = chars("abc  \t  def");
    assert_eq!(
        request_for_cursor(&text, 11, 4),
        Some(WrapRequest { break_offset: 4, skip_to_offset: 8 })
    );
    let trailing = chars("abcd    \nx");
    assert_eq!(
        request_for_cursor(&trailing, 2, 6),
        Some(WrapRequest { break_offset: 6, skip_to_offset: 8 })
    );
}

#[test]
fn request_offsets_are_absolute() {
    let text = chars("x\nsuperlongword next");
    assert_eq!(
        request_for_cursor(&text, 5, 5),
        Some(WrapRequest { break_offset: 15, skip_to_offset: 16 })
    );
}

#[test]
fn collect_skips_fitting_lines() {
    let text = chars("aaa bbb ccc\nok\nddd eee fff");
    let cursors = vec![1, 13, 20];
    assert_eq!(
        collect_wraps(&text, &cursors, 5),
        vec![
            WrapRequest { break_offset: 3, skip_to_offset: 4 },
            WrapRequest { break_offset: 18, skip_to_offset: 19 },
        ]
    );
}

#[test]
fn apply_wrap_replaces_run() {
    let mut text = chars("abc   def");
    apply_wrap(&mut text, WrapRequest { break_offset: 3, skip_to_offset: 6 }, &chars("  "));
    assert_eq!(text_of(&text), "abc\n  def");
}

#[test]
fn map_position_cases() {
    let q = WrapRequest { break_offset: 3, skip_to_offset: 6 };
    assert_eq!(map_position(2, q, 3), 2);
    assert_eq!(map_position(4, q, 3), 6);
    assert_eq!(map_position(6, q, 3), 6);
    assert_eq!(map_position(9, q, 1), 7);
}

#[test]
fn remap_pending_shifts_and_drops() {
    let applied = WrapRequest { break_offset: 10, skip_to_offset: 12 };
    let pending = vec![
        WrapRequest { break_offset: 2, skip_to_offset: 3 },
        WrapRequest { break_offset: 10, skip_to_offset: 12 },
        WrapRequest { break_offset: 11, skip_to_offset: 13 },
        WrapRequest { break_offset: 20, skip_to_offset: 22 },
    ];
    assert_eq!(
        remap_pending(&pending, applied, 5),
        vec![
            WrapRequest { break_offset: 2, skip_to_offset: 3 },
            WrapRequest { break_offset: 23, skip_to_offset: 25 },
        ]
    );
}

#[test]
fn pass_wraps_fox_line() {
    let mut text = chars("the quick brown fox jumps");
    let mut cursors = vec![25];
    assert_eq!(run_pass(&mut text, &mut cursors, 20, "  "), 1);
    assert_eq!(text_of(&text), "the quick brown fox\n  jumps");
    assert_eq!(cursors, vec![27]);
}

#[test]
fn pass_long_word_first_line_exceeds_width() {
    let mut text = chars("superlongword next");
    let mut cursors = vec![18];
    assert_eq!(run_pass(&mut text, &mut cursors, 5, ""), 1);
    assert_eq!(text_of(&text), "superlongword\nnext");
}

#[test]
fn pass_leaves_line_without_whitespace() {
    let mut text = chars("abcdefghijklmnopqrstuvwxyz");
    let mut cursors = vec![26];
    assert_eq!(run_pass(&mut text, &mut cursors, 10, ""), 0);
    assert_eq!(text_of(&text), "abcdefghijklmnopqrstuvwxyz");
}

#[test]
fn pass_leaves_fitting_line() {
    let mut text = chars("the quick brown fox");
    let mut cursors = vec![19];
    assert_eq!(run_pass(&mut text, &mut cursors, 20, ""), 0);
    assert_eq!(text_of(&text), "the quick brown fox");
}

#[test]
fn pass_is_idempotent() {
    let mut text = chars("the quick brown fox jumps");
    let mut cursors = vec![25];
    assert_eq!(run_pass(&mut text, &mut cursors, 20, ""), 1);
    let after_first = text.clone();
    assert_eq!(run_pass(&mut text, &mut cursors, 20, ""), 0);
    assert_eq!(text, after_first);
}

#[test]
fn pass_two_cursors_two_lines() {
    let mut text = chars("aaa bbb ccc\nddd eee fff\nok");
    let mut cursors = vec![11, 23, 26];
    assert_eq!(run_pass(&mut text, &mut cursors, 8, "-"), 2);
    assert_eq!(text_of(&text), "aaa bbb\n-ccc\nddd eee\n-fff\nok");
    assert_eq!(cursors, vec![12, 25, 28]);
}

#[test]
fn pass_two_cursors_same_line_wraps_once() {
    let mut text = chars("aaa bbb ccc");
    let mut cursors = vec![1, 10];
    assert_eq!(run_pass(&mut text, &mut cursors, 8, ""), 1);
    assert_eq!(text_of(&text), "aaa bbb\nccc");
}

#[test]
fn pass_disabled_or_zero_width_does_nothing() {
    let text = chars("aaa bbb ccc");
    let cursors = vec![11];
    assert!(WrapPass::start(&text, &cursors, 4, false).is_done());
    assert!(WrapPass::start(&text, &cursors, 0, true).is_done());
    let pass = WrapPass::start(&text, &cursors, 4, true);
    assert_eq!(pass.next_request(), Some(WrapRequest { break_offset: 3, skip_to_offset: 4 }));
}

#[test]
fn pass_advance_maps_rest() {
    let text = chars("aaa bbb\nccc ddd");
    let cursors = vec![0, 9];
    let mut pass = WrapPass::start(&text, &cursors, 4, true);
    assert_eq!(pass.next_request(), Some(WrapRequest { break_offset: 3, skip_to_offset: 4 }));
    pass.advance(3);
    assert_eq!(pass.next_request(), Some(WrapRequest { break_offset: 13, skip_to_offset: 14 }));
    pass.advance(1);
    assert!(pass.is_done());
}

#[test]
fn position_of_cursor() {
    let text = chars("line 1\nline 2\nline 3");
    assert_eq!(position_at(&text, 0), FilePosition { line: 0, column: 0 });
    assert_eq!(position_at(&text, 9), FilePosition { line: 1, column: 2 });
    assert_eq!(position_at(&text, 14), FilePosition { line: 2, column: 0 });
    assert_eq!(position_at(&text, 20), FilePosition { line: 2, column: 6 });
}

#[test]
fn pass_collapses_whitespace_after_break() {
    let mut text = chars("one two   \t three");
    let mut cursors = vec![17];
    assert_eq!(run_pass(&mut text, &mut cursors, 7, "  "), 1);
    assert_eq!(text_of(&text), "one two\n  three");
    assert_eq!(cursors, vec![15]);
}
