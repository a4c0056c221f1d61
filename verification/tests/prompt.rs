use ollama_completion::prompt::frame_fim_prompt;
use ollama_completion::Anchor;
use ollama_completion::Bias;
use ollama_completion::BufferSnapshot;
use ollama_completion::CursorPosition;
use ollama_completion::EntityId;
use ollama_completion::OllamaCompletionProvider;
use ollama_completion::MAX_PREFIX_BYTES;
use ollama_completion::MAX_SUFFIX_BYTES;

fn build(text: &str, offset: usize) -> String {
    let provider: OllamaCompletionProvider<(), ()> = OllamaCompletionProvider::new(());
    let snapshot = BufferSnapshot { entity_id: EntityId { id: 1 }, text: text.to_string() };
    let position = CursorPosition {
        anchor: Anchor { timestamp: 1, offset, bias: Bias::Right, buffer_id: Some(1) },
        offset,
    };
    provider.build_fim_prompt(&snapshot, position)
}

fn framed(prefix: &str, suffix: &str) -> String {
    format!("<|fim_prefix|>{}<|fim_suffix|>{}<|fim_middle|>", prefix, suffix)
}

#[test]
fn short_context_is_shown_whole() {
    assert_eq!(build("let a = é;\nlet b", 8), framed("let a = ", "é;\nlet b"));
    assert_eq!(build("", 0), framed("", ""));
    let prefix = "p".repeat(MAX_PREFIX_BYTES);
    let suffix = "s".repeat(MAX_SUFFIX_BYTES);
    assert_eq!(build(&format!("{}{}", prefix, suffix), MAX_PREFIX_BYTES), framed(&prefix, &suffix));
}

#[test]
fn long_prefix_starts_at_a_line() {
    let kept = "b".repeat(4000);
    let prefix = format!("{}\n{}", "a".repeat(500), kept);
    assert_eq!(build(&prefix, prefix.len()), framed(&kept, ""));
    // The first line break among the last bytes counts.
    let prefix = format!("{}\nx\n{}", "a".repeat(4500), "b".repeat(100));
    assert_eq!(
        build(&prefix, prefix.len()),
        framed(&format!("x\n{}", "b".repeat(100)), "")
    );
}

#[test]
fn long_prefix_without_a_line_break_is_cut() {
    let prefix = format!("\n{}", "a".repeat(5000));
    assert_eq!(build(&prefix, prefix.len()), framed(&"a".repeat(MAX_PREFIX_BYTES), ""));
}

#[test]
fn long_suffix_ends_with_a_line() {
    let suffix = format!("a\n{}\n{}", "b".repeat(100), "c".repeat(2000));
    assert_eq!(build(&suffix, 0), framed("", &format!("a\n{}\n", "b".repeat(100))));
}

#[test]
fn long_suffix_without_a_line_break_is_cut() {
    let suffix = format!("{}\n", "a".repeat(2000));
    assert_eq!(build(&suffix, 0), framed("", &"a".repeat(MAX_SUFFIX_BYTES)));
}

#[test]
fn limits_within_a_character_leave_it_out() {
    // The limit on the prefix falls inside the first character.
    let text = format!("{}a", "é".repeat(2048));
    assert_eq!(build(&text, text.len()), framed(&format!("{}a", "é".repeat(2047)), ""));
    // The limit on the suffix falls inside a character.
    let text = format!("a{}", "é".repeat(600));
    assert_eq!(build(&text, 0), framed("", &format!("a{}", "é".repeat(511))));
    // Characters of four bytes lose up to three.
    let text = format!("{}abc", "😀".repeat(2000));
    assert_eq!(build(&text, text.len()), framed(&format!("{}abc", "😀".repeat(1023)), ""));
    let text = format!("abc{}", "😀".repeat(2000));
    assert_eq!(build(&text, 0), framed("", &format!("abc{}", "😀".repeat(255))));
    // A line break still decides where there is one.
    let text = format!("{}\n{}b", "é".repeat(2040), "é".repeat(20));
    assert_eq!(build(&text, text.len()), framed(&format!("{}b", "é".repeat(20)), ""));
}

#[test]
fn limits_between_characters_are_used_up() {
    let text = "é".repeat(3000);
    assert_eq!(build(&text, 6000), framed(&"é".repeat(2048), ""));
    assert_eq!(build(&text, 0), framed("", &"é".repeat(512)));
}

#[test]
fn prompt_frames_both_sides() {
    assert_eq!(frame_fim_prompt("a", "b"), "<|fim_prefix|>a<|fim_suffix|>b<|fim_middle|>");
}
