use syng_dictionary::cedict::{
    get_tone_marks, is_measure_word, make_word_entry, parse_cedict_lines, process_cedict_entry,
    prune_measure_words, DictError,
};
use syng_dictionary::dictionary::build_dictionary;

fn hsk_list() -> hsk::Hsk {
    hsk::Hsk::new()
}

#[test]
fn parse_basic_line() {
    let entry = make_word_entry("\u{4f60}\u{597d} \u{4f60}\u{597d} [ni3 hao3] /hello/hi/", &hsk_list())
        .expect("line parses");
    assert_eq!(entry.traditional, "\u{4f60}\u{597d}");
    assert_eq!(entry.simplified, "\u{4f60}\u{597d}");
    assert_eq!(entry.pinyin_numbers, "ni3 hao3");
    assert_eq!(entry.pinyin_marks, "n\u{1d0} h\u{1ce}o");
    assert_eq!(entry.tone_marks, vec![3u8, 3u8]);
    assert_eq!(entry.english, vec!["hello".to_string(), "hi".to_string()]);
    assert_eq!(entry.word_id, 0);
    assert!(entry.measure_words.is_empty());
}

#[test]
fn measure_word_gloss() {
    let entry = process_cedict_entry(
        "\u{8eca} \u{8f66} [che1] /vehicle/CL:\u{500b}|\u{4e2a}[ge4]/",
    )
    .expect("line parses");
    assert_eq!(entry.measure_words.len(), 1);
    let mw = &entry.measure_words[0];
    assert_eq!(mw.traditional, "\u{500b}");
    assert_eq!(mw.simplified, "\u{4e2a}");
    assert_eq!(mw.pinyin_numbers, "ge4");
    assert_eq!(mw.pinyin_marks, "g\u{e8}");
    // the classifier gloss is removed from the gloss list
    assert_eq!(entry.english, vec!["vehicle".to_string()]);
}

#[test]
fn measure_word_without_pipe_and_comma_list() {
    let entry = process_cedict_entry(
        "\u{8eca} \u{8f66} [che1] /car/CL:\u{8f86}[liang4],\u{500b}|\u{4e2a}[ge4]/",
    )
    .expect("line parses");
    assert_eq!(entry.measure_words.len(), 2);
    assert_eq!(entry.measure_words[0].traditional, "\u{8f86}");
    assert_eq!(entry.measure_words[0].simplified, "\u{8f86}");
    assert_eq!(entry.measure_words[0].pinyin_numbers, "liang4");
    assert_eq!(entry.measure_words[1].traditional, "\u{500b}");
    assert_eq!(entry.measure_words[1].simplified, "\u{4e2a}");
}

#[test]
fn measure_word_helpers() {
    assert!(is_measure_word("CL:\u{500b}|\u{4e2a}[ge4]"));
    assert!(!is_measure_word("hello"));
    assert!(!is_measure_word("CL"));
    let pruned = prune_measure_words(vec![
        "hello".to_string(),
        "CL:\u{500b}|\u{4e2a}[ge4]".to_string(),
        "hi".to_string(),
    ]);
    assert_eq!(pruned, vec!["hello".to_string(), "hi".to_string()]);
}

#[test]
fn interior_brackets_are_stripped() {
    let entry = process_cedict_entry("A B [x1 [y2] /g/").expect("line parses");
    assert_eq!(entry.pinyin, "x1 y2");
}

#[test]
fn tone_marks_extraction() {
    assert_eq!(get_tone_marks("ni3 hao3"), vec![3u8, 3u8]);
    assert_eq!(get_tone_marks("ma5"), vec![5u8]);
    assert_eq!(get_tone_marks("a0b6c7d8e9"), Vec::<u8>::new());
    assert_eq!(get_tone_marks("mix1ed2 3"), vec![1u8, 2u8, 3u8]);
}

#[test]
fn malformed_lines_are_rejected() {
    // no space separator / missing second token
    assert_eq!(process_cedict_entry("word").unwrap_err(), DictError::MalformedLine);
    // missing opening bracket
    assert_eq!(process_cedict_entry("A B x1] /g/").unwrap_err(), DictError::MalformedLine);
    // missing closing bracket
    assert_eq!(process_cedict_entry("A B [x1 /g/").unwrap_err(), DictError::MalformedLine);
    // closing bracket before opening bracket
    assert_eq!(process_cedict_entry("A B ]x1[ /g/").unwrap_err(), DictError::MalformedLine);
    // no gloss delimiter
    assert_eq!(process_cedict_entry("A B [x1] g").unwrap_err(), DictError::MalformedLine);
    // empty gloss list
    assert_eq!(process_cedict_entry("A B [x1] /").unwrap_err(), DictError::MalformedLine);
    // empty romanization block
    assert_eq!(process_cedict_entry("A B [] /g/").unwrap_err(), DictError::MalformedLine);
    // empty traditional token (leading space)
    assert_eq!(process_cedict_entry(" B [x1] /g/").unwrap_err(), DictError::MalformedLine);
    // classifier gloss without a bracketed span
    assert_eq!(
        process_cedict_entry("A B [x1] /CL:abc/").unwrap_err(),
        DictError::MalformedLine
    );
    // classifier gloss whose simplified side lacks a bracket
    assert_eq!(
        process_cedict_entry("A B [x1] /CL:\u{500b}[ge4]|x/").unwrap_err(),
        DictError::MalformedLine
    );
}

#[test]
fn comment_lines_are_skipped() {
    let lines = vec![
        "# a header comment".to_string(),
        "A B [x1] /one/".to_string(),
        "#! another comment".to_string(),
        "C D [y2] /two/".to_string(),
    ];
    let entries = parse_cedict_lines(&lines).expect("batch parses");
    assert_eq!(entries.len(), 2);
    assert_eq!(entries[0].traditional, "A");
    assert_eq!(entries[1].traditional, "C");
}

#[test]
fn malformed_line_aborts_batch() {
    let lines = vec!["A B [x1] /one/".to_string(), "broken".to_string()];
    assert_eq!(parse_cedict_lines(&lines).unwrap_err(), DictError::MalformedLine);
}

#[test]
fn hsk_level_lookup() {
    let entry = make_word_entry(
        "\u{98db}\u{6a5f} \u{98de}\u{673a} [fei1 ji1] /airplane/",
        &hsk_list(),
    )
    .expect("line parses");
    assert_eq!(entry.hsk, 1);
    let none = make_word_entry("\u{4f60}\u{597d} \u{4f60}\u{597d} [ni3 hao3] /hello/", &hsk_list())
        .expect("line parses");
    assert_eq!(none.hsk, 0);
}

#[test]
fn content_hash_is_deterministic() {
    let a = process_cedict_entry("A B [x1] /one/two/").expect("parses");
    let b = process_cedict_entry("A B [x1] /one/two/").expect("parses");
    assert_eq!(
        syng_dictionary::dictionary::calculate_hash(&a),
        syng_dictionary::dictionary::calculate_hash(&b)
    );
}

#[test]
fn identifiers_follow_build_order() {
    let lines = vec![
        "A B [x1] /one/".to_string(),
        "C D [y2] /two/".to_string(),
        "E F [z3] /three/".to_string(),
    ];
    let entries = parse_cedict_lines(&lines).expect("batch parses");
    let dict = build_dictionary(entries);
    for id in 0u32..3u32 {
        let entry = dict.data.get(&id).expect("identifier stored");
        assert_eq!(entry.word_id, id);
    }
    assert_eq!(dict.data.get(&0).unwrap().traditional, "A");
    assert_eq!(dict.data.get(&2).unwrap().traditional, "E");
}
