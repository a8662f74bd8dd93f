use piece_table::EditedText;

fn text_of(t: &mut EditedText) -> String {
    t.read_text()
}

#[test]
fn round_trip_simple() {
    let mut t = EditedText::new("hello world");
    assert_eq!(text_of(&mut t), "hello world");
}

#[test]
fn round_trip_multiline() {
    let mut t = EditedText::new("one\ntwo\nthree");
    assert_eq!(text_of(&mut t), "one\ntwo\nthree");
}

#[test]
fn round_trip_unicode() {
    let mut t = EditedText::new("héllo wörld ✓");
    assert_eq!(text_of(&mut t), "héllo wörld ✓");
}

#[test]
fn empty_document() {
    let mut t = EditedText::new("");
    assert_eq!(text_of(&mut t), "");
    assert_eq!(t.get_lines(), vec![String::new()]);
    assert_eq!(t.piece_count(), 0);
}

#[test]
fn insert_at_every_offset() {
    let base = "abc\ndef";
    for i in 0..=base.chars().count() {
        let mut t = EditedText::new(base);
        t.add_char('X', i);
        let mut expected: Vec<char> = base.chars().collect();
        expected.insert(i, 'X');
        let expected: String = expected.into_iter().collect();
        assert_eq!(text_of(&mut t), expected, "insert at {}", i);
    }
}

#[test]
fn insert_past_end_appends() {
    let mut t = EditedText::new("ab");
    t.add_char('z', 100);
    assert_eq!(text_of(&mut t), "abz");
}

#[test]
fn insert_delete_inverse() {
    let cases = ["", "a", "abc", "line one\nline two", "ñandú"];
    for s in cases {
        for i in 0..=s.chars().count() {
            let mut t = EditedText::new(s);
            t.add_char('Q', i);
            t.remove_char(i);
            assert_eq!(text_of(&mut t), s, "insert/delete at {} in {:?}", i, s);
        }
    }
}

#[test]
fn delete_at_every_offset() {
    let base = "abcde";
    for i in 0..base.chars().count() {
        let mut t = EditedText::new(base);
        t.remove_char(i);
        let mut expected: Vec<char> = base.chars().collect();
        expected.remove(i);
        let expected: String = expected.into_iter().collect();
        assert_eq!(text_of(&mut t), expected, "delete at {}", i);
    }
}

#[test]
fn delete_out_of_range_is_noop() {
    let mut t = EditedText::new("abc");
    // populate the cache first, then check a no-op delete leaves it intact
    assert_eq!(text_of(&mut t), "abc");
    t.remove_char(3);
    assert_eq!(text_of(&mut t), "abc");
    t.remove_char(1000);
    assert_eq!(text_of(&mut t), "abc");
    assert_eq!(t.piece_count(), 1);
}

#[test]
fn delete_on_empty_is_noop() {
    let mut t = EditedText::new("");
    t.remove_char(0);
    assert_eq!(text_of(&mut t), "");
    assert_eq!(t.piece_count(), 0);
}

#[test]
fn lines_consistency_after_edits() {
    let mut t = EditedText::new("ab\ncd");
    t.add_char('\n', 1);
    t.add_char('x', 0);
    t.remove_char(4);
    let text = t.read_text();
    let expected: Vec<String> = text.split('\n').map(|s| s.to_owned()).collect();
    assert_eq!(t.get_lines(), expected);
}

#[test]
fn lines_trailing_newline() {
    let mut t = EditedText::new("ab\n");
    assert_eq!(t.get_lines(), vec!["ab".to_owned(), String::new()]);
}

#[test]
fn lines_only_newlines() {
    let mut t = EditedText::new("\n\n");
    assert_eq!(
        t.get_lines(),
        vec![String::new(), String::new(), String::new()]
    );
}

#[test]
fn sequential_typing_merges_into_one_piece() {
    let mut t = EditedText::new("");
    let mut expected = String::new();
    for (i, c) in "the quick brown fox jumps over the lazy dog"
        .chars()
        .enumerate()
    {
        t.add_char(c, i);
        expected.push(c);
    }
    assert_eq!(t.piece_count(), 1);
    assert_eq!(text_of(&mut t), expected);
}

#[test]
fn sequential_typing_in_middle_keeps_piece_count() {
    let mut t = EditedText::new("xy");
    t.add_char('a', 1);
    assert_eq!(t.piece_count(), 3);
    t.add_char('b', 2);
    t.add_char('c', 3);
    assert_eq!(t.piece_count(), 3);
    assert_eq!(text_of(&mut t), "xabcy");
}

#[test]
fn deletion_remerges_original_fragments() {
    let mut t = EditedText::new("abc");
    t.add_char('X', 1);
    assert_eq!(text_of(&mut t), "aXbc");
    assert_eq!(t.piece_count(), 3);
    t.remove_char(1);
    assert_eq!(text_of(&mut t), "abc");
    assert_eq!(t.piece_count(), 1);
}

#[test]
fn boundary_insert_delete() {
    let mut t = EditedText::new("ab");
    t.remove_char(0);
    assert_eq!(text_of(&mut t), "b");
    // an offset at the (new) end of the document deletes nothing
    t.remove_char(1);
    assert_eq!(text_of(&mut t), "b");
    t.remove_char(0);
    assert_eq!(text_of(&mut t), "");
    assert_eq!(t.piece_count(), 0);
}

#[test]
fn reads_are_stable_between_edits() {
    let mut t = EditedText::new("stable");
    let a = t.read_text();
    let b = t.read_text();
    assert_eq!(a, b);
    let l1 = t.get_lines();
    let l2 = t.get_lines();
    assert_eq!(l1, l2);
}

#[test]
fn interleaved_edits_and_reads() {
    let mut t = EditedText::new("hello\nworld");
    t.remove_char(5); // join the two lines: "helloworld"
    assert_eq!(text_of(&mut t), "helloworld");
    assert_eq!(t.get_lines(), vec!["helloworld".to_owned()]);
    t.add_char('\n', 5);
    assert_eq!(text_of(&mut t), "hello\nworld");
    assert_eq!(t.get_lines(), vec!["hello".to_owned(), "world".to_owned()]);
}

#[test]
fn unicode_insert_and_delete() {
    let mut t = EditedText::new("añb");
    t.add_char('é', 2);
    assert_eq!(text_of(&mut t), "añéb");
    t.remove_char(1);
    assert_eq!(text_of(&mut t), "aéb");
}
