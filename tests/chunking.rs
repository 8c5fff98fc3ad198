use harald::chunking::{
    character_based_chunking, chunk_field, chunk_text, semantic_chunking, size_based_chunking,
    ChunkerOptions, ChunkingStrategy,
};

#[test]
fn test_size_based_chunking() {
    let text = "This is a test string that should be split into chunks of maximum size.";
    let chunks = size_based_chunking(text, 10, false);
    // 71 characters cut every 10 give seven full pieces and a last one.
    assert_eq!(chunks.len(), 8);
    assert_eq!(chunks[0], "This is a ");
    assert_eq!(chunks[7], ".");
}

#[test]
fn test_character_based_chunking() {
    let text = "This is a test string that should be split at word boundaries.";
    let chunks = character_based_chunking(text, 15, false);
    assert!(chunks.len() >= 4);
    for chunk in &chunks {
        assert!(chunk.len() <= 20);
    }
}

#[test]
fn test_semantic_chunking() {
    let text = "This is sentence one. This is sentence two! Is this sentence three? Yes it is.";
    let chunks = semantic_chunking(text, false);
    // Sentences keep their closing punctuation, so no character is lost.
    assert_eq!(chunks.len(), 4);
    assert_eq!(chunks[0], "This is sentence one.");
    assert_eq!(chunks[1], "This is sentence two!");
    assert_eq!(chunks[2], "Is this sentence three?");
    assert_eq!(chunks[3], "Yes it is.");
}

#[test]
fn empty_text_gives_no_chunk_under_any_policy() {
    for strategy in [
        ChunkingStrategy::Size(10),
        ChunkingStrategy::Character(10),
        ChunkingStrategy::Semantic,
    ] {
        let options = ChunkerOptions { strategy, ..ChunkerOptions::default() };
        assert!(chunk_text("", options).is_empty());
    }
    assert!(chunk_text("   \n  ", ChunkerOptions::default()).is_empty());
    assert!(chunk_field("", 250).is_empty());
}

#[test]
fn chunks_respect_the_ceiling_and_cover_the_text() {
    let text = "alpha beta gamma delta epsilon zeta eta theta iota kappa lambda mu nu xi omicron";
    let strip = |s: &str| s.chars().filter(|c| !c.is_whitespace()).collect::<String>();
    for strategy in [ChunkingStrategy::Size(7), ChunkingStrategy::Character(12)] {
        let n = match strategy {
            ChunkingStrategy::Size(n) | ChunkingStrategy::Character(n) => n,
            ChunkingStrategy::Semantic => 250,
        };
        let options = ChunkerOptions { strategy, ..ChunkerOptions::default() };
        let chunks = chunk_text(text, options);
        for c in &chunks {
            assert!(!c.is_empty() && c.chars().count() <= n);
        }
        assert_eq!(strip(&chunks.concat()), strip(text));
    }
}

#[test]
fn word_chunks_pack_words_greedily() {
    let chunks = character_based_chunking("aa bb cc dd", 5, false);
    assert_eq!(chunks, vec!["aa bb", "cc dd"]);
    let chunks = character_based_chunking("a abcdefghijk b", 4, false);
    assert_eq!(chunks, vec!["a", "abcd", "efgh", "ijk", "b"]);
}

#[test]
fn short_text_is_one_chunk() {
    assert_eq!(character_based_chunking("  hello  ", 20, false), vec!["hello"]);
    assert_eq!(size_based_chunking("  hello  ", 20, true), vec!["  hello  "]);
}

#[test]
fn semantic_prefers_paragraphs() {
    let chunks = semantic_chunking("First para. Still first.\n\nSecond para.", false);
    assert_eq!(chunks, vec!["First para. Still first.", "Second para."]);
}

#[test]
fn semantic_without_breaks_falls_back_to_words() {
    let chunks = semantic_chunking("no punctuation here at all", false);
    assert_eq!(chunks, vec!["no punctuation here at all"]);
    let long = "word ".repeat(80);
    let chunks = semantic_chunking(&long, false);
    assert!(chunks.len() >= 2);
    for c in &chunks {
        assert!(c.chars().count() <= 250);
    }
}

#[test]
fn field_chunks_are_capped_at_250() {
    let text = "x".repeat(600);
    let chunks = chunk_field(&text, 1000);
    assert_eq!(chunks.len(), 3);
    assert_eq!(chunks[0].chars().count(), 250);
    assert_eq!(chunks[2].chars().count(), 100);
    assert_eq!(chunk_field("Vision", 250), vec!["Vision"]);
}
