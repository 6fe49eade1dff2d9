use clip_bpe::segment::segment;
use clip_bpe::tokenizer::{InitError, Tokenizer};
use std::io::Write;

// A small vocabulary: a header line and two merge lines. Base ids are
// fixed by the codec: 'a' = 64, 'c' = 66, 't' = 83, end-of-word variants
// 256 higher. The merges create "ca" at id 512 and "cat</w>" at id 513;
// the markers are 514 and 515.
fn vocab_text() -> Vec<u8> {
    let mut s = String::new();
    s.push_str("test vocabulary header\n");
    s.push_str("c a\n");
    s.push_str("ca t</w>\n");
    s.into_bytes()
}

fn make_tokenizer() -> Tokenizer {
    Tokenizer::with_vocabulary(&vocab_text(), 516).expect("vocabulary loads")
}

fn gzip_bytes(data: &[u8]) -> Vec<u8> {
    let mut enc = flate2::write::GzEncoder::new(Vec::new(), flate2::Compression::default());
    enc.write_all(data).expect("write");
    enc.finish().expect("finish")
}

#[test]
fn empty_text_yields_markers_only() {
    let t = make_tokenizer();
    assert_eq!(t.encode(""), vec![514, 515]);
    assert_eq!(t.count(""), 2);
    assert_eq!(t.start_of_text(), 514);
    assert_eq!(t.end_of_text(), 515);
}

#[test]
fn count_equals_encode_length() {
    let t = make_tokenizer();
    for text in ["", "a cat", "A CAT", "???", "a\nb\tc", "<start_of_text>", "'ve"] {
        assert_eq!(t.count(text) as usize, t.encode(text).len());
    }
}

#[test]
fn encode_is_framed_by_markers() {
    let t = make_tokenizer();
    for text in ["", "a cat", "xyz!!", " \t ", "1 2 3"] {
        let ids = t.encode(text);
        assert!(ids.len() >= 2);
        assert_eq!(*ids.first().unwrap(), 514);
        assert_eq!(*ids.last().unwrap(), 515);
    }
}

#[test]
fn encode_is_deterministic_across_instances() {
    let t1 = make_tokenizer();
    let t2 = make_tokenizer();
    for text in ["a cat", "catcat", "'ll 'd 're", "mixed 7 things?"] {
        assert_eq!(t1.encode(text), t2.encode(text));
        assert_eq!(t1.encode(text), t1.encode(text));
    }
}

#[test]
fn a_cat_segments_and_merges() {
    let t = make_tokenizer();
    // Pre-tokens: ["a", "cat"]; "a" is the single end-of-word base token
    // 64 + 256; "cat" merges c+a -> 512, then 512 + t</w> -> 513.
    let chars: Vec<char> = "a cat".chars().collect();
    let words = segment(&chars);
    assert_eq!(words, vec![vec!['a'], vec!['c', 'a', 't']]);
    let ids = t.encode("a cat");
    assert_eq!(ids, vec![514, 320, 513, 515]);
    assert!(ids.len() >= 3);
    assert_eq!(t.count("a cat") as usize, ids.len());
}

#[test]
fn lowest_rank_pair_merges_first() {
    // In "cat" both (c, a) and (a, t</w>) are adjacent at the start; only
    // (c, a) is ranked, and after merging it the pair (ca, t</w>) applies.
    // A vocabulary ranking (a, t</w>) first would instead leave "c at</w>".
    let mut s = String::new();
    s.push_str("header\n");
    s.push_str("a t</w>\n");
    let t = Tokenizer::with_vocabulary(&s.into_bytes(), 515).expect("loads");
    // 'c' = 66 stays unmerged, "at</w>" = 512; markers 513/514.
    assert_eq!(t.encode("cat"), vec![513, 66, 512, 514]);
}

#[test]
fn control_character_is_representable() {
    let t = make_tokenizer();
    // Byte 0x01 is outside every printable range: base id 189, end-of-word
    // variant 445. It still encodes, with one content token.
    let ids = t.encode("\u{1}");
    assert_eq!(ids, vec![514, 445, 515]);
    assert_eq!(t.count("\u{1}"), 3);
}

#[test]
fn long_input_is_not_truncated() {
    let t = make_tokenizer();
    let mut text = String::new();
    for _ in 0..200 {
        text.push_str("a ");
    }
    let ids = t.encode(&text);
    assert_eq!(ids.len(), 202);
    assert_eq!(t.count(&text), 202);
}

#[test]
fn case_folding_and_whitespace_do_not_move_boundaries() {
    let t = make_tokenizer();
    let base = t.encode("a cat");
    assert_eq!(t.encode("A CAT"), base);
    assert_eq!(t.encode("a   cat"), base);
    assert_eq!(t.encode("  a\tcat\n"), base);
    assert_eq!(t.encode("A  Cat"), base);
}

#[test]
fn contractions_split_before_letter_runs() {
    let chars: Vec<char> = "i've seen it".chars().collect();
    let words = segment(&chars);
    assert_eq!(
        words,
        vec![
            vec!['i'],
            vec!['\'', 'v', 'e'],
            vec!['s', 'e', 'e', 'n'],
            vec!['i', 't'],
        ]
    );
}

#[test]
fn marker_words_encode_as_marker_ids() {
    let t = make_tokenizer();
    // 'h' = 71, 'i' end-of-word = 72 + 256 = 328.
    let ids = t.encode("<start_of_text>hi<end_of_text>");
    assert_eq!(ids, vec![514, 514, 71, 328, 515, 515]);
}

#[test]
fn gzip_roundtrip_loads_the_same_tables() {
    let gz = gzip_bytes(&vocab_text());
    let t = Tokenizer::from_gzip(&gz, 516).expect("gzip vocabulary loads");
    let plain = make_tokenizer();
    assert_eq!(t.encode("a cat"), plain.encode("a cat"));
    assert_eq!(t.start_of_text(), 514);
    assert_eq!(t.end_of_text(), 515);
}

#[test]
fn invalid_gzip_is_a_decompress_error() {
    let garbage = vec![1u8, 2, 3, 4, 5];
    match Tokenizer::from_gzip(&garbage, 516) {
        Err(InitError::Decompress) => {},
        other => panic!("expected a decompression error, got {:?}", other.map(|_| ())),
    }
}

#[test]
fn too_small_size_is_rejected() {
    match Tokenizer::with_vocabulary(&vocab_text(), 513) {
        Err(InitError::WrongSize) => {},
        other => panic!("expected a size error, got {:?}", other.map(|_| ())),
    }
}

#[test]
fn missing_lines_are_rejected() {
    match Tokenizer::with_vocabulary(&vocab_text(), 600) {
        Err(InitError::WrongSize) => {},
        other => panic!("expected a size error, got {:?}", other.map(|_| ())),
    }
}

#[test]
fn one_word_line_is_rejected() {
    let data = b"header\nonlyoneword\n".to_vec();
    match Tokenizer::with_vocabulary(&data, 515) {
        Err(InitError::MalformedLine) => {},
        other => panic!("expected a malformed line error, got {:?}", other.map(|_| ())),
    }
}

#[test]
fn unknown_subword_is_rejected() {
    let data = b"header\nzz a\n".to_vec();
    match Tokenizer::with_vocabulary(&data, 515) {
        Err(InitError::UnknownWord) => {},
        other => panic!("expected an unknown word error, got {:?}", other.map(|_| ())),
    }
}

#[test]
fn duplicate_merge_pair_is_rejected() {
    let data = b"header\nc a\nc a\n".to_vec();
    match Tokenizer::with_vocabulary(&data, 516) {
        Err(InitError::Collision) => {},
        other => panic!("expected a collision error, got {:?}", other.map(|_| ())),
    }
}

#[test]
fn digits_are_single_pretokens() {
    let chars: Vec<char> = "12ab".chars().collect();
    let words = segment(&chars);
    assert_eq!(words, vec![vec!['1'], vec!['2'], vec!['a', 'b']]);
}

#[test]
fn symbol_runs_group_together() {
    let chars: Vec<char> = "hello!!! ?".chars().collect();
    let words = segment(&chars);
    assert_eq!(
        words,
        vec![vec!['h', 'e', 'l', 'l', 'o'], vec!['!', '!', '!'], vec!['?']]
    );
}
