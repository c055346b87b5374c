use kuiperdb::chunking::{token_windows, Chunker, CustomChunker, FixedTokenChunker, MarkdownChunker};
use kuiperdb::error::ErrorKind;

#[test]
fn test_fixed_token_chunker_empty() {
    let chunker = FixedTokenChunker::new().unwrap();
    let chunks = chunker.chunk("", 512, 50).unwrap();
    assert_eq!(chunks.len(), 0);
}

#[test]
fn test_fixed_token_chunker_small_text() {
    let chunker = FixedTokenChunker::new().unwrap();
    let text = "This is a small text.";
    let chunks = chunker.chunk(text, 512, 50).unwrap();
    assert_eq!(chunks.len(), 1);
    assert_eq!(chunks[0], text);
}

#[test]
fn test_markdown_chunker_splits_by_horizontal_rules() {
    let chunker = MarkdownChunker::new().unwrap();
    let text = "# Title\nSome content\n\n---\n\n## Section\nMore content";
    let chunks = chunker.chunk(text, 512, 0).unwrap();
    assert_eq!(chunks.len(), 2, "Should split into 2 chunks at ---");
    assert!(chunks[0].contains("Title"), "First chunk should contain title");
    assert!(chunks[1].contains("Section"), "Second chunk should contain section");
    assert!(!chunks[0].contains("---"), "Chunks should not contain the delimiter");
    assert!(!chunks[1].contains("---"), "Chunks should not contain the delimiter");
}

#[test]
fn test_fixed_token_chunker_count_tokens() {
    let chunker = FixedTokenChunker::new().unwrap();
    let text = "This is a test.";
    let count = chunker.count_tokens(text).unwrap();
    assert!(count > 0);
    assert!(count < 20); // Should be ~4-5 tokens
}

#[test]
fn test_fixed_token_chunker_large_text() {
    let chunker = FixedTokenChunker::new().unwrap();

    // Create text larger than chunk size
    let text = "word ".repeat(1000); // ~1000 tokens
    let chunks = chunker.chunk(&text, 512, 50).unwrap();

    // Should create multiple chunks
    assert!(chunks.len() > 1);

    // Each chunk should be non-empty
    for chunk in &chunks {
        assert!(!chunk.is_empty());
    }
}

#[test]
fn test_fixed_token_chunker_overlap() {
    let chunker = FixedTokenChunker::new().unwrap();

    // Create text that will be split
    let text = "word ".repeat(600); // ~600 tokens
    let chunks = chunker.chunk(&text, 512, 50).unwrap();

    // Should have overlap between chunks
    assert!(chunks.len() >= 2);
}

#[test]
fn test_custom_chunker_stub() {
    let chunker = CustomChunker;
    let text = "a".repeat(10000);
    let chunks = chunker.chunk(&text, 512, 0).unwrap();

    assert!(chunks.len() > 1);
    assert!(!chunks[0].is_empty());
}

#[test]
fn test_custom_chunker_token_count() {
    let chunker = CustomChunker;
    let text = "This is a test with approximately 40 characters";
    let count = chunker.count_tokens(text).unwrap();

    // Should be ~11-12 tokens (48 chars / 4)
    assert!(
        (11..=12).contains(&count),
        "Expected 11-12 tokens, got {}",
        count
    );
}

#[test]
fn custom_chunker_windows_are_exact() {
    let chunker = CustomChunker;
    let text = "a".repeat(10000);
    let chunks = chunker.chunk(&text, 512, 0).unwrap();
    assert_eq!(chunks.len(), 5);
    assert_eq!(chunks[0].len(), 2048);
    assert_eq!(chunks[3].len(), 2048);
    assert_eq!(chunks[4].len(), 10000 - 4 * 2048);
    assert_eq!(chunks.concat(), text);
    assert_eq!(chunker.chunk("", 512, 0).unwrap().len(), 0);
    assert_eq!(chunker.chunk("abcd", 1, 7).unwrap(), vec!["abcd".to_string()]);
    assert_eq!(
        chunker.chunk("abcde", 1, 0).unwrap(),
        vec!["abcd".to_string(), "e".to_string()]
    );
    assert_eq!(chunker.count_tokens("abcdefg").unwrap(), 1);
    assert_eq!(chunker.count_tokens("").unwrap(), 0);
}

#[test]
fn custom_chunker_counts_characters_not_bytes_in_windows() {
    let chunker = CustomChunker;
    let text = "éééééé";
    let chunks = chunker.chunk(text, 1, 0).unwrap();
    assert_eq!(chunks, vec!["éééé".to_string(), "éé".to_string()]);
    // the token estimate goes by bytes
    assert_eq!(chunker.count_tokens(text).unwrap(), 3);
}

#[test]
fn token_windows_without_overlap_are_disjoint() {
    assert_eq!(
        token_windows(50, 10, 0),
        vec![(0, 10), (10, 20), (20, 30), (30, 40), (40, 50)]
    );
    assert_eq!(token_windows(25, 10, 0), vec![(0, 10), (10, 20), (20, 25)]);
}

#[test]
fn token_windows_with_overlap_share_tokens() {
    assert_eq!(token_windows(25, 10, 3), vec![(0, 10), (7, 17), (14, 24), (21, 25)]);
    // an overlap of the window's size or more counts as one less than the size
    assert_eq!(token_windows(4, 2, 2), vec![(0, 2), (1, 3), (2, 4)]);
    assert_eq!(token_windows(4, 2, 100), vec![(0, 2), (1, 3), (2, 4)]);
    assert_eq!(token_windows(3, 1, 5), vec![(0, 1), (1, 2), (2, 3)]);
}

#[test]
fn token_windows_of_short_inputs() {
    assert_eq!(token_windows(0, 10, 0), vec![(0, 0)]);
    assert_eq!(token_windows(10, 10, 3), vec![(0, 10)]);
    assert_eq!(token_windows(5, 10, 3), vec![(0, 5)]);
}

#[test]
fn token_windows_stay_in_budget_and_cover() {
    for (n, size, overlap) in [(1000usize, 512usize, 50usize), (600, 512, 50), (77, 5, 2), (9, 3, 0)] {
        let windows = token_windows(n, size, overlap);
        assert_eq!(windows[0].0, 0);
        assert_eq!(windows[windows.len() - 1].1, n);
        for w in &windows {
            assert!(w.0 < w.1 && w.1 - w.0 <= size);
        }
        for pair in windows.windows(2) {
            assert_eq!(pair[1].0, pair[0].1 - overlap.min(size - 1));
        }
    }
}

#[test]
fn fixed_chunker_splits_fifty_tokens_into_five_chunks() {
    let chunker = FixedTokenChunker::new().unwrap();
    let text = vec!["word"; 50].join(" ");
    assert_eq!(chunker.count_tokens(&text).unwrap(), 50);
    let chunks = chunker.chunk(&text, 10, 0).unwrap();
    assert_eq!(chunks.len(), 5);
    for chunk in &chunks {
        assert!(chunker.count_tokens(chunk).unwrap() <= 10);
    }
    assert_eq!(chunks.concat(), text);
}

#[test]
fn fixed_chunker_decodes_what_it_encoded() {
    let chunker = FixedTokenChunker::new().unwrap();
    let text = "The quick brown fox jumps over the lazy dog";
    let n = chunker.count_tokens(text).unwrap();
    assert_eq!(n, 9);
    let chunks = chunker.chunk(text, 4, 0).unwrap();
    assert_eq!(chunks.len(), 3);
    assert_eq!(chunks.concat(), text);
    assert_eq!(chunks[0], "The quick brown fox");
    // with an overlap of one token each chunk repeats the last token of the one before
    let lapped = chunker.chunk(text, 4, 1).unwrap();
    assert_eq!(lapped.len(), 3);
    assert_eq!(lapped[0], "The quick brown fox");
    assert_eq!(lapped[1], " fox jumps over the");
    assert_eq!(lapped[2], " the lazy dog");
}

#[test]
fn fixed_chunker_reports_undecodable_windows() {
    let chunker = FixedTokenChunker::new().unwrap();
    // one character of several tokens: a window that ends inside it is no text
    let text = "\u{1F9D1}\u{200D}\u{1F680}\u{1F9D1}\u{200D}\u{1F680}";
    let n = chunker.count_tokens(text).unwrap();
    assert!(n > 2);
    let mut failed = false;
    for size in 1..n {
        match chunker.chunk(text, size, 0) {
            Ok(chunks) => assert_eq!(chunks.concat(), text),
            Err(e) => {
                assert_eq!(e.kind, ErrorKind::ChunkerError);
                failed = true;
            }
        }
    }
    assert!(failed);
}

#[test]
fn markdown_sections_follow_rules() {
    let chunker = MarkdownChunker::new().unwrap();
    assert_eq!(
        chunker.split_by_sections("a\n---\nb\n***\nc\n___\nd"),
        vec!["a", "b", "c", "d"]
    );
    // fewer than three, or mixed characters, are no rule
    assert_eq!(chunker.split_by_sections("a\n--\nb"), vec!["a\n--\nb"]);
    assert_eq!(chunker.split_by_sections("a\n-*-\nb"), vec!["a\n-*-\nb"]);
    assert_eq!(chunker.split_by_sections("a\n  -----  \r\nb\r\n"), vec!["a", "b"]);
    // rules at the start and in a row open no section
    assert_eq!(chunker.split_by_sections("---\n---\na"), vec!["a"]);
    // a section of blank lines is kept, empty
    assert_eq!(chunker.split_by_sections("a\n---\n\n---\nb"), vec!["a", "", "b"]);
    assert_eq!(chunker.split_by_sections(""), Vec::<String>::new());
    assert_eq!(chunker.split_by_sections("  x  \n"), vec!["x"]);
}

#[test]
fn markdown_paragraphs_are_gathered_under_the_budget() {
    let chunker = MarkdownChunker::new().unwrap();
    let para = vec!["word"; 6].join(" ");
    assert_eq!(chunker.count_tokens(&para).unwrap(), 6);
    let text = format!("{}\n\n{}\n\n{}", para, para, para);
    // two paragraphs are more than 11 tokens
    let chunks = chunker.split_by_paragraphs(&text, 11).unwrap();
    assert_eq!(chunks, vec![para.clone(), para.clone(), para.clone()]);
    // the blank line that joins two paragraphs is not counted beforehand
    let joined = chunker.split_by_paragraphs(&text, 12).unwrap();
    assert_eq!(joined, vec![format!("{}\n\n{}", para, para), para.clone()]);
    let wide = chunker.split_by_paragraphs(&text, 100).unwrap();
    assert_eq!(wide, vec![text.clone()]);
    let one = chunker.split_by_paragraphs(&para, 100).unwrap();
    assert_eq!(one, vec![para.clone()]);
}

#[test]
fn markdown_splits_a_long_paragraph_by_tokens() {
    let chunker = MarkdownChunker::new().unwrap();
    let long = vec!["word"; 30].join(" ");
    let text = format!("intro\n\n{}\n\noutro", long);
    let chunks = chunker.split_by_paragraphs(&text, 10).unwrap();
    assert_eq!(chunks[0], "intro");
    assert_eq!(chunks[chunks.len() - 1], "outro");
    // the overlap of 50 counts as 9: windows advance by one token
    assert_eq!(chunks.len(), 2 + 21);
    for chunk in &chunks {
        assert!(chunker.count_tokens(chunk).unwrap() <= 10);
    }
}

#[test]
fn markdown_chunker_splits_long_sections_only() {
    let chunker = MarkdownChunker::new().unwrap();
    let para = vec!["word"; 6].join(" ");
    let text = format!("short\n\n---\n\n{}\n\n{}", para, para);
    let chunks = chunker.chunk(&text, 8, 0).unwrap();
    assert_eq!(chunks, vec!["short".to_string(), para.clone(), para.clone()]);
    assert_eq!(chunker.chunk("", 8, 0).unwrap().len(), 0);
}
