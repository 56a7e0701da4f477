use knora::processor::DocumentProcessor;

#[test]
fn test_create_chunks() {
    let processor = DocumentProcessor::new(100, 20);
    let text = "This is sentence one. This is sentence two. This is sentence three.";
    let chunks = processor.create_chunks(text);
    assert!(!chunks.is_empty());
}

#[test]
fn test_empty_text() {
    let processor = DocumentProcessor::new(100, 20);
    let chunks = processor.create_chunks("");
    assert!(chunks.is_empty());
}

#[test]
fn blank_text_gives_no_chunk() {
    let processor = DocumentProcessor::new(100, 20);
    assert!(processor.create_chunks("   ").is_empty());
    assert!(processor.create_chunks(" \t\n\u{a0}\u{3000} ").is_empty());
    assert!(processor.create_chunks("...!?\n").is_empty());
}

#[test]
fn short_text_is_one_chunk_with_counted_size() {
    let processor = DocumentProcessor::new(100, 20);
    let chunks =
        processor.create_chunks("This is sentence one. This is sentence two. This is sentence three.");
    assert_eq!(chunks.len(), 1);
    assert_eq!(
        chunks[0].text,
        "This is sentence one This is sentence two This is sentence three"
    );
    assert_eq!(chunks[0].size, 65);
    assert_eq!(chunks[0].chunk_id, 0);
}

#[test]
fn text_of_250_characters_gives_three_chunks() {
    let mut text = String::new();
    for i in 0..5 {
        text.push_str(&format!("Sentence number {:02} has exactly forty nine chars. ", i));
    }
    text.push_str("Done.");
    assert_eq!(text.len(), 250);
    let processor = DocumentProcessor::new(100, 20);
    let chunks = processor.create_chunks(&text);
    assert_eq!(chunks.len(), 3);
    assert_eq!(
        chunks[0].text,
        "Sentence number 00 has exactly forty nine chars Sentence number 01 has exactly forty nine chars"
    );
    assert_eq!(chunks[0].size, 96);
    assert_eq!(
        chunks[1].text,
        "chars Sentence number 02 has exactly forty nine chars Sentence number 03 has exactly forty nine chars"
    );
    assert_eq!(chunks[1].size, 101);
    assert_eq!(chunks[2].text, "chars Sentence number 04 has exactly forty nine chars Done");
    assert_eq!(chunks[2].size, 58);
    for (i, chunk) in chunks.iter().enumerate() {
        assert_eq!(chunk.chunk_id, i);
        assert!(chunk.size <= 100 + 20);
        assert!(!chunk.text.is_empty());
    }
}

#[test]
fn every_break_character_ends_a_sentence() {
    let processor = DocumentProcessor::new(10, 5);
    let chunks = processor.create_chunks("aaa bbb. ccc ddd! eee fff? ggg\nhhh");
    let got: Vec<(String, usize, usize)> =
        chunks.iter().map(|c| (c.text.clone(), c.size, c.chunk_id)).collect();
    assert_eq!(
        got,
        vec![
            ("aaa bbb".to_string(), 8, 0),
            ("bbb ccc ddd".to_string(), 11, 1),
            ("ddd eee fff".to_string(), 11, 2),
            ("fff ggg hhh".to_string(), 11, 3),
        ]
    );
}

#[test]
fn overlap_starts_after_the_last_space_of_the_tail() {
    let processor = DocumentProcessor::new(20, 8);
    let chunks =
        processor.create_chunks("one two three four five. six seven eight nine ten. eleven twelve");
    let got: Vec<(String, usize)> = chunks.iter().map(|c| (c.text.clone(), c.size)).collect();
    assert_eq!(
        got,
        vec![
            ("one two three four five".to_string(), 24),
            ("five six seven eight nine ten".to_string(), 29),
            ("ten eleven twelve".to_string(), 17),
        ]
    );
}

#[test]
fn every_sentence_stands_in_some_chunk() {
    let text = "First point here. Second point follows! Is the third one a question? Fourth\nFifth and last.";
    let processor = DocumentProcessor::new(30, 10);
    let chunks = processor.create_chunks(text);
    for sentence in [
        "First point here",
        "Second point follows",
        "Is the third one a question",
        "Fourth",
        "Fifth and last",
    ] {
        assert!(chunks.iter().any(|c| c.text.contains(sentence)), "{}", sentence);
    }
}

#[test]
fn overlap_text_of_a_short_chunk_is_the_chunk() {
    let processor = DocumentProcessor::new(100, 20);
    assert_eq!(processor.get_overlap_text("short"), "short");
    assert_eq!(processor.get_overlap_text(""), "");
}

#[test]
fn overlap_text_prefers_a_sentence_gap_then_a_space() {
    let processor = DocumentProcessor::new(100, 20);
    assert_eq!(
        processor.get_overlap_text("The quick brown fox. Jumps over the lazy dog"),
        "dog"
    );
    let processor = DocumentProcessor::new(100, 30);
    assert_eq!(
        processor.get_overlap_text("The quick brown fox. Jumps over the lazy dog"),
        "Jumps over the lazy dog"
    );
    let processor = DocumentProcessor::new(100, 5);
    assert_eq!(processor.get_overlap_text("abcdefghijklmnopqrstuvwxyz"), "vwxyz");
    let processor = DocumentProcessor::new(100, 0);
    assert_eq!(processor.get_overlap_text("abc def"), "");
}

#[test]
fn overlap_text_never_cuts_a_character() {
    // Each of the letters with an accent takes two bytes: the tail of five
    // bytes would start inside one, so it starts after it.
    let processor = DocumentProcessor::new(100, 5);
    assert_eq!(processor.get_overlap_text("aaaa\u{e9}\u{e9}\u{e9}"), "\u{e9}\u{e9}");
    let processor = DocumentProcessor::new(100, 6);
    assert_eq!(processor.get_overlap_text("aaaa\u{e9}\u{e9}\u{e9}"), "\u{e9}\u{e9}\u{e9}");
}

#[test]
fn sizes_are_counted_in_bytes() {
    let processor = DocumentProcessor::new(100, 20);
    let chunks = processor.create_chunks("caf\u{e9} cr\u{e8}me");
    assert_eq!(chunks.len(), 1);
    assert_eq!(chunks[0].text, "caf\u{e9} cr\u{e8}me");
    assert_eq!(chunks[0].size, 13);
}

#[test]
fn each_chunk_is_a_seed_and_a_run_of_sentences() {
    let text = "aaa bbb. ccc ddd! eee fff? ggg\nhhh";
    let units = ["aaa bbb", "ccc ddd", "eee fff", "ggg", "hhh"];
    let processor = DocumentProcessor::new(10, 5);
    let chunks = processor.create_chunks(text);
    // the first chunk is a run of sentences; every other is a seed from the end
    // of the chunk before it, a space, and the run that follows
    let runs = [&units[0..1], &units[1..2], &units[2..3], &units[3..5]];
    assert_eq!(chunks.len(), runs.len());
    assert_eq!(chunks[0].text, runs[0].join(" "));
    for i in 1..chunks.len() {
        let run = runs[i].join(" ");
        assert!(chunks[i].text.ends_with(&run));
        let seed = &chunks[i].text[..chunks[i].text.len() - run.len()];
        let seed = seed.trim_end();
        assert!(seed.len() <= 5);
        assert!(chunks[i - 1].text.ends_with(seed));
    }
}
