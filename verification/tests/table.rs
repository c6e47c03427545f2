use peace_table::str_utils::{find_line_breaks, line_breaks};
use peace_table::{Break, BufferType, CharBound, PieceTable};

#[test]
fn contiguous_insertion() {
    let mut pt = PieceTable::new("ag");

    let letters = ('b'..='f').map(|ch| ch.to_string());
    letters.enumerate().for_each(|(i, ch)| pt.insert(i + 1, &ch));

    assert_eq!(pt.text(), "abcdefg");
    assert_eq!(pt.piece_count(), 3, "contiguous-inserts");

    let mut apart = PieceTable::with_contiguous_inserts("ag", false);
    let letters = ('b'..='f').map(|ch| ch.to_string());
    letters.enumerate().for_each(|(i, ch)| apart.insert(i + 1, &ch));

    assert_eq!(apart.text(), "abcdefg");
    assert_eq!(apart.piece_count(), 7);
}

#[test]
fn first_line_break() {
    let pt = PieceTable::new("012\r\n567");
    let idx = pt.piece(0).first_line_break.unwrap();
    let (lb_idx, lb_type) = pt.buffers().original.line_breaks[idx];

    assert_eq!(lb_type, Break::Crlf);
    assert_eq!(pt.buffers().original.content.as_bytes()[lb_idx], b'\r');
    assert_eq!(pt.buffers().original.content.as_bytes()[lb_idx + 1], b'\n');
}

#[test]
fn count_lines() {
    let mut v = vec![];
    let text = "My name is:\nNot 123, but it is\r\nNot 321 either.";
    line_breaks(text, &mut v, 0);
    assert_eq!(v.len(), 2)
}

#[test]
fn new_keeps_the_text() {
    let pt = PieceTable::new("initial");
    assert_eq!(pt.text(), "initial");
    assert_eq!(pt.len_chars(), 7);
    assert_eq!(pt.len_bytes(), 7);
    assert_eq!(pt.len_lines(), 1);
    assert_eq!(pt.piece_count(), 1);
}

#[test]
fn insert_at_start_and_inside() {
    let mut pt = PieceTable::new("rld");
    pt.insert(0, "hellowo");
    pt.insert(5, " ");
    assert_eq!(pt.text(), "hello world");
    assert_eq!(pt.len_chars(), 11);
    assert_eq!(pt.len_bytes(), 11);
}

#[test]
fn insert_then_remove_across_pieces() {
    let mut pt = PieceTable::new("hello_there");
    pt.insert(5, "  ");
    pt.insert(7, " ");
    pt.remove(6..=8);
    assert_eq!(pt.text(), "hello there");
    assert_eq!(pt.len_chars(), 11);
}

#[test]
fn remove_everything() {
    let mut pt = PieceTable::new("012345");
    pt.remove(0..=5);
    assert_eq!(pt.text(), "");
    assert_eq!(pt.len_lines(), 1);
    assert_eq!(pt.len_chars(), 0);
    assert_eq!(pt.len_bytes(), 0);
}

#[test]
fn remove_empty_range_changes_nothing() {
    let mut pt = PieceTable::new("012345");
    pt.remove(5..0);
    assert_eq!(pt.text(), "012345");
    assert_eq!(pt.len_chars(), 6);
    assert_eq!(pt.len_bytes(), 6);
    assert_eq!(pt.len_lines(), 1);
    assert_eq!(pt.piece_count(), 1);
}

#[test]
fn lengths_of_multibyte_text() {
    let pt = PieceTable::new("1234\u{2464}");
    assert_eq!(pt.len_bytes(), 7);
    assert_eq!(pt.len_chars(), 5);
}

#[test]
fn insert_after_multibyte_char() {
    let mut pt = PieceTable::new("a\u{2464}b");
    pt.insert(2, "\u{e9}x");
    assert_eq!(pt.text(), "a\u{2464}\u{e9}xb");
    assert_eq!(pt.len_chars(), 5);
    assert_eq!(pt.len_bytes(), 8);
    pt.remove(1..3);
    assert_eq!(pt.text(), "axb");
    assert_eq!(pt.len_bytes(), 3);
}

#[test]
fn iter_gives_the_chunks_in_order() {
    let mut pt = PieceTable::new("hithere");
    pt.insert(2, ", and hello, ");
    let parts = pt.iter();
    assert_eq!(parts, vec!["hi", ", and hello, ", "there"]);
    assert_eq!(parts.concat(), pt.text());
}

#[test]
fn insert_of_nothing_keeps_the_text() {
    let mut pt = PieceTable::new("abc");
    pt.insert(0, "");
    assert_eq!(pt.text(), "abc");
    pt.insert(3, "");
    assert_eq!(pt.text(), "abc");
    assert_eq!(pt.len_chars(), 3);
    assert_eq!(pt.len_lines(), 1);
}

#[test]
fn insert_at_end_appends() {
    let mut pt = PieceTable::new("abc");
    pt.insert(3, "def");
    assert_eq!(pt.text(), "abcdef");
    assert_eq!(pt.piece_count(), 2);
}

#[test]
fn insert_at_piece_end_splits_nothing() {
    let mut pt = PieceTable::new("abcd");
    pt.insert(2, "XY");
    assert_eq!(pt.piece_count(), 3);
    pt.remove(0..1);
    assert_eq!(pt.text(), "bXYcd");
    let before = pt.piece_count();
    pt.insert(1, "-");
    assert_eq!(pt.text(), "b-XYcd");
    assert_eq!(pt.piece_count(), before + 1);
}

#[test]
fn insert_into_emptied_table() {
    let mut pt = PieceTable::new("abc");
    pt.remove(..);
    assert_eq!(pt.piece_count(), 0);
    assert!(pt.can_insert(0, "xyz"));
    pt.insert(0, "xyz");
    assert_eq!(pt.text(), "xyz");
}

#[test]
fn insert_counts_line_breaks() {
    let mut pt = PieceTable::new("one\ntwo");
    assert_eq!(pt.len_lines(), 2);
    pt.insert(3, "\r\nmid\n");
    assert_eq!(pt.text(), "one\r\nmid\n\ntwo");
    assert_eq!(pt.len_lines(), 4);
    pt.remove(3..10);
    assert_eq!(pt.text(), "onetwo");
    assert_eq!(pt.len_lines(), 1);
}

#[test]
fn can_insert_refuses_what_insert_does_not_take() {
    let pt = PieceTable::new("a\r\nb");
    assert!(pt.can_insert(1, "x"));
    assert!(!pt.can_insert(2, "x"));
    assert!(pt.can_insert(3, "x"));
    assert!(pt.can_insert(4, "x"));
    assert!(!pt.can_insert(5, "x"));
}

#[test]
fn remove_bounds_of_each_kind() {
    let mut pt = PieceTable::new("0123456789");
    pt.remove_bounds(CharBound::Excluded(7), CharBound::Unbounded);
    assert_eq!(pt.text(), "01234567");
    pt.remove_bounds(CharBound::Unbounded, CharBound::Excluded(2));
    assert_eq!(pt.text(), "234567");
    pt.remove_bounds(CharBound::Included(1), CharBound::Included(2));
    assert_eq!(pt.text(), "2567");
    pt.remove_bounds(CharBound::Included(3), CharBound::Included(usize::MAX));
    assert_eq!(pt.text(), "256");
    assert_eq!(pt.simplify_range_bounds(CharBound::Excluded(0), CharBound::Excluded(9)), (1, 3));
}

#[test]
fn remove_after_last_insert_keeps_fast_path() {
    let mut pt = PieceTable::new("abcdef");
    pt.insert(1, "X");
    pt.remove(4..6);
    assert_eq!(pt.text(), "aXbcf");
    let count = pt.piece_count();
    pt.insert(2, "Y");
    assert_eq!(pt.text(), "aXYbcf");
    assert_eq!(pt.piece_count(), count);
}

#[test]
fn scanner_offsets_and_kinds() {
    let mut v = vec![];
    let added = line_breaks("a\r\nb\n\rc\r", &mut v, 10);
    assert_eq!(added, 2);
    assert_eq!(v, vec![(11, Break::Crlf), (14, Break::Lf)]);
    assert_eq!(Break::Crlf.len_bytes(), 2);
    assert_eq!(Break::Crlf.len_chars(), 2);
    assert_eq!(Break::Lf.len_bytes(), 1);
    assert_eq!(Break::Lf.len_chars(), 1);
}

#[test]
fn line_after_inserted_break() {
    let mut pt = PieceTable::new("FirstSecond");
    pt.insert(5, "\r\n");
    assert_eq!(pt.len_lines(), 2);
    assert_eq!(pt.line(1).text(), "Second");
    assert_eq!(pt.line(0).text(), "First");
    assert_eq!(pt.line(1).iter(), vec!["Second"]);
}

#[test]
fn lines_and_breaks_give_the_text() {
    let mut pt = PieceTable::new("one\ntwo\r\nthree");
    pt.insert(4, "and\na half\n");
    assert_eq!(pt.text(), "one\nand\na half\ntwo\r\nthree");
    assert_eq!(pt.len_lines(), 5);
    let breaks = ["\n", "\n", "\n", "\r\n"];
    let mut all = String::new();
    for k in 0..pt.len_lines() {
        all.push_str(&pt.line(k).text());
        if k < breaks.len() {
            all.push_str(breaks[k]);
        }
    }
    assert_eq!(all, pt.text());
    assert_eq!(pt.line(1).text(), "and");
    assert_eq!(pt.line(2).text(), "a half");
    assert_eq!(pt.line(3).text(), "two");
    assert_eq!(pt.line(4).text(), "three");
}

#[test]
fn line_over_several_pieces() {
    let mut pt = PieceTable::new("ab\ncd");
    pt.insert(1, "XY");
    pt.insert(6, "Z");
    assert_eq!(pt.text(), "aXYb\ncZd");
    assert_eq!(pt.line(0).iter(), vec!["a", "XY", "b"]);
    assert_eq!(pt.line(0).text(), "aXYb");
    assert_eq!(pt.line(1).iter(), vec!["c", "Z", "d"]);
    assert_eq!(pt.mark_at(0), Some((2, 1, Break::Lf)));
    assert_eq!(pt.mark_at(1), None);
}

#[test]
fn empty_lines_and_empty_table() {
    let pt = PieceTable::new("\n\n");
    assert_eq!(pt.len_lines(), 3);
    assert_eq!(pt.line(0).text(), "");
    assert_eq!(pt.line(1).text(), "");
    assert_eq!(pt.line(2).text(), "");
    assert!(pt.line(1).iter().is_empty());
    let mut gone = PieceTable::new("x\ny");
    gone.remove(..);
    assert_eq!(gone.len_lines(), 1);
    assert_eq!(gone.line(0).text(), "");
}

#[test]
fn removal_that_parts_a_crlf_drops_the_break() {
    let mut pt = PieceTable::new("a\r\nb");
    assert_eq!(pt.len_lines(), 2);
    pt.remove(2..3);
    assert_eq!(pt.text(), "a\rb");
    assert_eq!(pt.len_lines(), 1);
    assert_eq!(pt.line(0).text(), "a\rb");
}

#[test]
fn try_new_and_try_insert() {
    let mut pt = PieceTable::try_new("a\r\nb").unwrap();
    assert!(!pt.try_insert(2, "x"));
    assert_eq!(pt.text(), "a\r\nb");
    assert!(!pt.try_insert(9, "x"));
    assert!(pt.try_insert(1, "x"));
    assert_eq!(pt.text(), "ax\r\nb");
}

#[test]
fn contiguous_breaks_do_not_join() {
    let mut pt = PieceTable::new("ab");
    pt.insert(1, "\r");
    pt.insert(2, "\n");
    assert_eq!(pt.text(), "a\r\nb");
    assert_eq!(pt.piece_count(), 3);
    assert_eq!(pt.len_lines(), 2);
    assert_eq!(pt.line(0).text(), "a\r");
    assert_eq!(pt.line(1).text(), "b");
}

#[test]
fn two_inserts_in_a_row_are_one_insert_of_both() {
    let mut twice = PieceTable::new("hello world");
    twice.insert(5, ", dear");
    twice.insert(11, " old");
    let mut once = PieceTable::new("hello world");
    once.insert(5, ", dear old");
    assert_eq!(twice.text(), once.text());
    assert_eq!(twice.text(), "hello, dear old world");
    assert_eq!(twice.len_bytes(), once.len_bytes());
    assert_eq!(twice.len_chars(), once.len_chars());
    assert_eq!(twice.piece_count(), once.piece_count());
}

#[test]
fn counters_follow_the_text() {
    let mut pt = PieceTable::new("gr\u{fc}n\n");
    pt.insert(5, "\u{2464}\r\nx");
    pt.remove(1..3);
    pt.insert(0, "\n");
    let text = pt.text();
    assert_eq!(text, "\ngn\n\u{2464}\r\nx");
    assert_eq!(pt.iter().concat(), text);
    assert_eq!(pt.len_bytes(), text.len());
    assert_eq!(pt.len_chars(), text.chars().count());
    assert_eq!(pt.len_lines(), 4);
}

#[test]
fn remove_through_last_char_empties() {
    let mut pt = PieceTable::new("ab\ncd");
    pt.insert(2, "xy");
    let last = pt.len_chars() - 1;
    pt.remove(0..=last);
    assert_eq!(pt.text(), "");
    assert_eq!(pt.len_chars(), 0);
    assert_eq!(pt.len_bytes(), 0);
    assert_eq!(pt.len_lines(), 1);
}

#[test]
fn remove_within_one_piece_leaves_two() {
    let mut pt = PieceTable::new("0123456789");
    pt.remove(3..6);
    assert_eq!(pt.text(), "0126789");
    assert_eq!(pt.piece_count(), 2);
    assert_eq!(pt.iter(), vec!["012", "6789"]);
    pt.remove(0..3);
    assert_eq!(pt.iter(), vec!["6789"]);
    pt.remove(2..);
    assert_eq!(pt.iter(), vec!["67"]);
}

#[test]
fn piece_at_char_finds_the_first_piece_that_reaches() {
    let mut pt = PieceTable::new("abcd");
    pt.insert(2, "XY");
    assert_eq!(pt.piece_at_char(0), (0, 0));
    assert_eq!(pt.piece_at_char(2), (0, 2));
    assert_eq!(pt.piece_at_char(3), (1, 1));
    assert_eq!(pt.piece_at_char(4), (1, 2));
    assert_eq!(pt.piece_at_char(6), (2, 2));
}

#[test]
fn removal_keeps_the_breaks_outside_the_range() {
    let mut pt = PieceTable::new("a\nb\nc\nd\ne");
    pt.insert(4, "X\nY");
    assert_eq!(pt.text(), "a\nb\nX\nYc\nd\ne");
    assert_eq!(pt.len_lines(), 6);
    pt.remove(3..8);
    assert_eq!(pt.text(), "a\nb\nd\ne");
    assert_eq!(pt.len_lines(), 4);
    assert_eq!(pt.line(2).text(), "d");
    pt.remove(1..2);
    assert_eq!(pt.text(), "ab\nd\ne");
    assert_eq!(pt.len_lines(), 3);
    assert_eq!(pt.line(0).text(), "ab");
}

#[test]
fn without_contiguous_inserts_the_text_is_the_same() {
    let mut joined = PieceTable::with_contiguous_inserts("start end", true);
    let mut apart = PieceTable::with_contiguous_inserts("start end", false);
    let mut at = 5;
    for word in [" one", " two\n", "", " three"] {
        joined.insert(at, word);
        apart.insert(at, word);
        at += word.chars().count();
    }
    assert_eq!(joined.text(), "start one two\n three end");
    assert_eq!(joined.text(), apart.text());
    assert_eq!(joined.len_lines(), apart.len_lines());
    assert_eq!(joined.piece_count(), 3);
    assert_eq!(apart.piece_count(), 6);
    assert!(joined.piece_count() < apart.piece_count());
}

#[test]
fn scanner_with_all_kinds() {
    let text = "a\u{b}b\u{c}c\rd\r\ne\u{85}f\u{2028}g\u{2029}h\ni";
    let mut plain = vec![];
    assert_eq!(line_breaks(text, &mut plain, 0), 2);
    assert_eq!(plain, vec![(7, Break::Crlf), (21, Break::Lf)]);
    let mut all = vec![];
    assert_eq!(find_line_breaks(text, &mut all, 100, true), 8);
    assert_eq!(
        all,
        vec![
            (101, Break::Vt),
            (103, Break::Ff),
            (105, Break::Cr),
            (107, Break::Crlf),
            (110, Break::Nel),
            (113, Break::Ls),
            (117, Break::Ps),
            (121, Break::Lf),
        ]
    );
    for (offset, kind) in all {
        let at = offset - 100;
        let found = &text[at..at + kind.len_bytes()];
        assert_eq!(found.chars().count(), kind.len_chars());
    }
    assert_eq!(Break::Nel.len_bytes(), 2);
    assert_eq!(Break::Ls.len_bytes(), 3);
    assert_eq!(Break::Ps.len_bytes(), 3);
    assert_eq!(Break::Vt.len_bytes(), 1);
    assert_eq!(Break::Ff.len_bytes(), 1);
    assert_eq!(Break::Cr.len_bytes(), 1);
    assert_eq!(Break::Ps.len_chars(), 1);
}

#[test]
fn table_with_unicode_line_breaks() {
    let mut pt = PieceTable::with_options("one\u{2028}two\rthree", true, true);
    assert_eq!(pt.len_lines(), 3);
    assert_eq!(pt.line(0).text(), "one");
    assert_eq!(pt.line(1).text(), "two");
    assert_eq!(pt.line(2).text(), "three");
    pt.insert(4, "a\u{85}b\u{b}");
    assert_eq!(pt.text(), "one\u{2028}a\u{85}b\u{b}two\rthree");
    assert_eq!(pt.len_lines(), 5);
    assert_eq!(pt.line(1).text(), "a");
    assert_eq!(pt.line(2).text(), "b");
    assert_eq!(pt.line(3).text(), "two");
    pt.remove(3..6);
    assert_eq!(pt.text(), "oneb\u{b}two\rthree");
    assert_eq!(pt.len_lines(), 3);
    assert_eq!(pt.line(0).text(), "oneb");
    let plain = PieceTable::new("one\u{2028}two\rthree");
    assert_eq!(plain.len_lines(), 1);
}

fn break_text(kind: Break) -> &'static str {
    match kind {
        Break::Lf => "\n",
        Break::Crlf => "\r\n",
        Break::Vt => "\u{b}",
        Break::Ff => "\u{c}",
        Break::Cr => "\r",
        Break::Nel => "\u{85}",
        Break::Ls => "\u{2028}",
        Break::Ps => "\u{2029}",
    }
}

fn char_to_byte_of(text: &str, char_idx: usize) -> usize {
    text.char_indices().nth(char_idx).map(|(at, _)| at).unwrap_or(text.len())
}

fn run_edits(seed: u64, contiguous: bool, unicode: bool) {
    let words = [
        "a", "bc", "\n", "\r\n", "\r", "\u{e9}t\u{e9}", "\u{2464}", "x\ny", "", "\u{85}", "\u{2028}z",
        "\u{b}", "one two", "\n\n",
    ];
    let mut state = seed;
    let mut next = move |bound: usize| -> usize {
        state = state.wrapping_mul(6364136223846793005).wrapping_add(1442695040888963407);
        ((state >> 33) as usize) % bound
    };
    let mut model = String::from("first\r\nsecond\nthird");
    let mut pt = PieceTable::with_options("first\r\nsecond\nthird", contiguous, unicode);
    for _ in 0..400 {
        let len = model.chars().count();
        if next(3) < 2 {
            let at = next(len + 1);
            let word = words[next(words.len())];
            if pt.try_insert(at, word) {
                let byte_at = char_to_byte_of(&model, at);
                model.insert_str(byte_at, word);
            } else {
                let bytes = model.as_bytes();
                let byte_at = char_to_byte_of(&model, at);
                assert_eq!(bytes[byte_at - 1], b'\r');
                assert_eq!(bytes[byte_at], b'\n');
            }
        } else {
            let from = next(len + 1);
            let to = from + next(6);
            pt.remove(from..to);
            let to = to.min(len);
            if from < to {
                let start = char_to_byte_of(&model, from);
                let end = char_to_byte_of(&model, to);
                model.replace_range(start..end, "");
            }
        }
        assert_eq!(pt.text(), model);
        assert_eq!(pt.iter().concat(), model);
        assert_eq!(pt.len_bytes(), model.len());
        assert_eq!(pt.len_chars(), model.chars().count());
        let lines = pt.len_lines();
        let mut joined = String::new();
        for k in 0..lines {
            let line = pt.line(k);
            assert_eq!(line.iter().concat(), line.text());
            joined.push_str(&line.text());
            match pt.mark_at(k) {
                Some((_, _, kind)) => joined.push_str(break_text(kind)),
                None => assert_eq!(k + 1, lines),
            }
        }
        assert_eq!(joined, model);
    }
}

#[test]
fn many_edits_against_a_string() {
    run_edits(1, true, false);
    run_edits(2, false, false);
    run_edits(3, true, true);
    run_edits(4, false, true);
    run_edits(0xfeed, true, true);
}

#[test]
fn room_for_text() {
    let pt = PieceTable::new("abc");
    assert!(pt.has_room_for("some text"));
    assert!(pt.has_room_for(""));
}

#[test]
fn new_table_has_one_piece_over_the_original() {
    let pt = PieceTable::new("012\r\n567");
    assert_eq!(pt.piece_count(), 1);
    let piece = pt.piece(0);
    assert_eq!(piece.buffer, BufferType::Original);
    assert_eq!(piece.start, 0);
    assert_eq!(piece.len_bytes, 8);
    assert_eq!(piece.len_chars, 8);
    assert_eq!(piece.first_line_break, Some(0));
    assert_eq!(pt.buffers().original.line_breaks, vec![(3, Break::Crlf)]);
    assert_eq!(pt.buffers().add.content, "");
    assert!(pt.buffers().add.line_breaks.is_empty());
    let plain = PieceTable::new("abc");
    assert_eq!(plain.piece(0).first_line_break, None);
}

#[test]
fn removal_within_a_piece_leaves_its_two_ends() {
    let mut pt = PieceTable::new("012345");
    pt.remove(1..3);
    assert_eq!(pt.text(), "0345");
    assert_eq!(pt.len_chars(), 4);
    assert_eq!(pt.len_bytes(), 4);
    assert_eq!(pt.piece_count(), 2);
    let before = pt.piece(0);
    let after = pt.piece(1);
    assert_eq!((before.buffer, before.start, before.len_bytes), (BufferType::Original, 0, 1));
    assert_eq!((after.buffer, after.start, after.len_bytes), (BufferType::Original, 3, 3));
}

#[test]
fn trimming_the_end_of_a_piece_drops_its_line_break() {
    let mut pt = PieceTable::new("a\nb");
    pt.insert(3, "cd");
    pt.remove(1..4);
    assert_eq!(pt.text(), "ad");
    assert_eq!(pt.len_chars(), 2);
    assert_eq!(pt.len_bytes(), 2);
    assert_eq!(pt.len_lines(), 1);
    assert_eq!(pt.piece_count(), 2);
    assert_eq!(pt.piece(0).first_line_break, None);
    assert_eq!(pt.piece(0).len_bytes, 1);
}

#[test]
fn trimming_the_start_of_a_piece_moves_its_start() {
    let mut pt = PieceTable::new("ab");
    pt.insert(2, "\ncd");
    pt.remove(1..4);
    assert_eq!(pt.text(), "ad");
    assert_eq!(pt.len_chars(), 2);
    assert_eq!(pt.len_lines(), 1);
    let left = pt.piece(1);
    assert_eq!(left.buffer, BufferType::Add);
    assert_eq!((left.start, left.len_bytes, left.len_chars), (2, 1, 1));
    assert_eq!(left.first_line_break, None);
}

#[test]
fn split_gives_three_pieces_in_order() {
    let mut pt = PieceTable::new("hithere");
    pt.insert(2, ", and hello, ");
    assert_eq!(pt.iter(), vec!["hi", ", and hello, ", "there"]);
    let add = pt.piece(1);
    assert_eq!((add.buffer, add.start, add.len_bytes), (BufferType::Add, 0, 13));
    let after = pt.piece(2);
    assert_eq!((after.buffer, after.start, after.len_bytes), (BufferType::Original, 2, 5));
    assert_eq!(pt.buffers().add.content, ", and hello, ");
}

#[test]
fn insert_after_multibyte_char_before_crlf() {
    let mut pt = PieceTable::new("\u{e9}\r\nx");
    assert!(!pt.can_insert(2, "y"));
    assert!(pt.can_insert(3, "y"));
    pt.insert(3, "y");
    assert_eq!(pt.text(), "\u{e9}\r\nyx");
    assert_eq!(pt.len_lines(), 2);
    assert_eq!(pt.line(1).text(), "yx");
}
