use ollama_completion::completion_from_text;
use ollama_completion::edits::interleave;
use ollama_completion::Anchor;
use ollama_completion::Bias;
use ollama_completion::BufferSnapshot;
use ollama_completion::CursorPosition;
use ollama_completion::Edit;
use ollama_completion::EditPrediction;
use ollama_completion::EntityId;

fn predict(text: &str, offset: usize, completion: &str) -> Vec<(usize, String)> {
    let snapshot = BufferSnapshot { entity_id: EntityId { id: 1 }, text: text.to_string() };
    let position = CursorPosition {
        anchor: Anchor { timestamp: 1, offset, bias: Bias::Left, buffer_id: None },
        offset,
    };
    match completion_from_text(&snapshot, completion, position) {
        EditPrediction::Local { id, edits, edit_preview } => {
            assert!(id.is_none());
            assert!(edit_preview.is_none());
            assert!(edits.iter().all(|e| e.bias() == Bias::Right));
            edits.into_iter().map(|e| (e.offset, e.text)).collect()
        }
    }
}

fn apply(text: &str, edits: &[(usize, String)]) -> String {
    let mut result = String::new();
    let mut from = 0;
    for (offset, inserted) in edits {
        result.push_str(&text[from..*offset]);
        result.push_str(inserted);
        from = *offset;
    }
    result.push_str(&text[from..]);
    result
}

fn at(offset: usize, text: &str) -> (usize, String) {
    (offset, text.to_string())
}

#[test]
fn whole_completion_is_inserted_at_the_end_of_a_line() {
    assert_eq!(predict("let x\nlet y", 5, " = 1;"), vec![at(5, " = 1;")]);
    assert_eq!(predict("", 0, "x"), vec![at(0, "x")]);
}

#[test]
fn completion_is_threaded_through_the_rest_of_the_line() {
    // The closing bracket is already there.
    let edits = predict("f()\nnext", 2, "a, b)");
    assert_eq!(edits, vec![at(2, "a, b")]);
    assert_eq!(apply("f()\nnext", &edits), "f(a, b)\nnext");

    let edits = predict("x[]()", 2, "0](y);");
    assert_eq!(edits, vec![at(2, "0"), at(4, "y"), at(5, ";")]);
    assert_eq!(apply("x[]()", &edits), "x[0](y);");
}

#[test]
fn nothing_is_inserted_where_the_line_already_reads_so() {
    assert_eq!(predict("abc", 1, "bc"), vec![]);
}

#[test]
fn edits_stop_at_the_first_piece_without_a_match() {
    let edits = predict("abxcd", 0, "1a2b3c");
    assert_eq!(edits, vec![at(0, "1"), at(1, "2")]);
    assert_eq!(apply("abxcd", &edits), "1a2bxcd");
    assert_eq!(predict("zz", 0, "a"), vec![]);
    assert_eq!(predict("a", 0, ""), vec![]);
}

#[test]
fn edits_are_anchored_to_the_right() {
    let edit = Edit { offset: 3, text: "x".to_string() };
    assert_eq!(edit.bias(), Bias::Right);
    for edit in interleave(&vec!["a", "b", "c"], &vec!["b"], 0) {
        assert_eq!(edit.bias(), Bias::Right);
    }
}

#[test]
fn every_edit_inserts_text_within_the_line() {
    for (text, offset, completion) in [
        ("f()\nnext", 2, "a, b)\n;"),
        ("abxcd", 0, "1a2b3c"),
        ("x[]()\n()", 2, "0](y);"),
        ("é()", 3, "ü)ß"),
    ] {
        let end = text[offset..].find('\n').map_or(text.len(), |i| offset + i);
        let edits = predict(text, offset, completion);
        assert!(!edits.is_empty());
        for (at, inserted) in &edits {
            assert!(!inserted.is_empty());
            assert!(offset <= *at && *at <= end);
        }
        for pair in edits.windows(2) {
            assert!(pair[0].0 < pair[1].0);
        }
    }
}

#[test]
fn the_longest_beginning_is_matched() {
    // "ab" occurs in the completion in order and "abz" does not: the shortest
    // beginning of the completion with "ab" in it is "xaxb".
    let edits = predict("abz\n", 0, "xaxbxab");
    assert_eq!(edits, vec![at(0, "x"), at(1, "x")]);
    assert_eq!(apply("abz\n", &edits), "xaxbz\n");
}

#[test]
fn grapheme_clusters_are_not_torn_apart() {
    // The accented letter is one cluster, so the bare letter does not match it.
    assert_eq!(predict("e", 0, "e\u{301}"), vec![]);
    assert_eq!(predict("e\u{301}", 0, "xe\u{301}y"), vec![at(0, "x"), at(3, "y")]);
    // A flag is one cluster of two characters.
    let flag = "\u{1f1e9}\u{1f1ea}";
    assert_eq!(predict(flag, 0, &format!("{}!", flag)), vec![at(8, "!")]);
    assert_eq!(predict(flag, 0, "\u{1f1e9}"), vec![]);
}

#[test]
fn offsets_count_bytes() {
    let edits = predict("é()", 3, "ü)ß");
    assert_eq!(edits, vec![at(3, "ü"), at(4, "ß")]);
    assert_eq!(apply("é()", &edits), "é(ü)ß");
}

#[test]
fn pieces_are_interleaved() {
    let edits = interleave(&vec!["a", "b", "c", "d"], &vec!["b", "d"], 10);
    assert_eq!(
        edits,
        vec![
            Edit { offset: 10, text: "a".to_string() },
            Edit { offset: 11, text: "c".to_string() },
        ]
    );
    assert_eq!(interleave(&vec![], &vec!["b"], 0), vec![]);
    assert_eq!(interleave(&vec![], &vec![], 0), vec![]);
}
