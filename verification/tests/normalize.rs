use std::collections::HashMap;
use syng_dictionary::cedict::parse_cedict_lines;
use syng_dictionary::dictionary::{
    build_dictionary, build_searchable_english, build_searchable_pinyin, SearchIndex,
};

#[test]
fn english_keys_excise_parentheses() {
    assert_eq!(
        build_searchable_english(&vec!["to eat (food)".to_string()]),
        vec!["to%20eat".to_string(), "eat".to_string()]
    );
    assert_eq!(
        build_searchable_english(&vec!["(informal) hello".to_string()]),
        vec!["hello".to_string()]
    );
}

#[test]
fn english_keys_strip_digits_and_punctuation() {
    assert_eq!(
        build_searchable_english(&vec!["don't panic!".to_string()]),
        vec!["dont%20panic".to_string()]
    );
    assert_eq!(
        build_searchable_english(&vec!["2 plus 2".to_string()]),
        vec!["%20plus%20".to_string()]
    );
}

#[test]
fn english_keys_lower_case_and_infinitive() {
    assert_eq!(
        build_searchable_english(&vec!["To Eat".to_string()]),
        vec!["to%20eat".to_string(), "eat".to_string()]
    );
    assert_eq!(
        build_searchable_english(&vec!["to ".to_string()]),
        vec!["to%20".to_string(), "".to_string()]
    );
}

#[test]
fn pinyin_keys_three_forms() {
    assert_eq!(
        build_searchable_pinyin("n\u{1d0} h\u{1ce}o".to_string(), "ni3 hao3".to_string()),
        vec![
            "n\u{1d0}h\u{1ce}o".to_string(),
            "ni3hao3".to_string(),
            "nihao".to_string(),
        ]
    );
}

#[test]
fn pinyin_keys_are_lower_cased() {
    assert_eq!(
        build_searchable_pinyin("N\u{1d0} H\u{1ce}o".to_string(), "NI3 Hao3".to_string()),
        vec![
            "n\u{1d0}h\u{1ce}o".to_string(),
            "ni3hao3".to_string(),
            "nihao".to_string(),
        ]
    );
}

fn sample_lines() -> Vec<String> {
    vec![
        "# CC-CEDICT sample".to_string(),
        "\u{4f60}\u{597d} \u{4f60}\u{597d} [ni3 hao3] /hello/hi/".to_string(),
        "\u{5403} \u{5403} [chi1] /to eat (food)/CL:\u{500b}|\u{4e2a}[ge4]/".to_string(),
        "\u{4f60}\u{597d} \u{4f60}\u{597d} [ni3 hao3] /greetings/".to_string(),
    ]
}

fn all_bucket_ids(index: &SearchIndex) -> Vec<u32> {
    let mut ids: Vec<u32> = Vec::new();
    for (_, bucket) in index.pairs.iter() {
        ids.extend(bucket.iter().copied());
    }
    ids
}

#[test]
fn referential_integrity() {
    let entries = parse_cedict_lines(&sample_lines()).expect("batch parses");
    let dict = build_dictionary(entries);
    let indices = [&dict.pinyin, &dict.english, &dict.simplified, &dict.traditional];
    for index in indices.iter() {
        for id in all_bucket_ids(index) {
            assert!(dict.data.contains_key(&id), "bucket id {} missing from store", id);
        }
    }
}

#[test]
fn distinct_entries_share_surface_buckets() {
    let entries = parse_cedict_lines(&sample_lines()).expect("batch parses");
    let dict = build_dictionary(entries);
    // the two lines with identical surface text received distinct ids 0 and 2
    let bucket = dict.traditional.get("\u{4f60}\u{597d}").expect("shared key present");
    assert_eq!(bucket, &vec![0u32, 2u32]);
    let bucket = dict.simplified.get("\u{4f60}\u{597d}").expect("shared key present");
    assert_eq!(bucket, &vec![0u32, 2u32]);
    assert_eq!(dict.data.get(&0).unwrap().english, vec!["hello".to_string(), "hi".to_string()]);
    assert_eq!(dict.data.get(&2).unwrap().english, vec!["greetings".to_string()]);
}

#[test]
fn english_and_pinyin_buckets_reference_entries() {
    let entries = parse_cedict_lines(&sample_lines()).expect("batch parses");
    let dict = build_dictionary(entries);
    assert_eq!(dict.pinyin.get("ni3hao3").expect("digit key"), &vec![0u32, 2u32]);
    assert_eq!(dict.pinyin.get("nihao").expect("bare key"), &vec![0u32, 2u32]);
    assert_eq!(dict.pinyin.get("n\u{1d0}h\u{1ce}o").expect("diacritic key"), &vec![0u32, 2u32]);
    assert_eq!(dict.english.get("hello").expect("gloss key"), &vec![0u32]);
    // both derived keys of the infinitive gloss reference the same entry
    assert_eq!(dict.english.get("to%20eat").expect("primary key"), &vec![1u32]);
    assert_eq!(dict.english.get("eat").expect("bare verb key"), &vec![1u32]);
}

fn index_as_map(index: &SearchIndex) -> HashMap<String, Vec<u32>> {
    let mut m: HashMap<String, Vec<u32>> = HashMap::new();
    for (key, bucket) in index.pairs.iter() {
        m.insert(key.clone(), bucket.clone());
    }
    m
}

#[test]
fn pipeline_is_deterministic() {
    let first = build_dictionary(parse_cedict_lines(&sample_lines()).expect("parses"));
    let second = build_dictionary(parse_cedict_lines(&sample_lines()).expect("parses"));
    assert_eq!(index_as_map(&first.pinyin), index_as_map(&second.pinyin));
    assert_eq!(index_as_map(&first.english), index_as_map(&second.english));
    assert_eq!(index_as_map(&first.simplified), index_as_map(&second.simplified));
    assert_eq!(index_as_map(&first.traditional), index_as_map(&second.traditional));
    // bucket insertion order is reproduced exactly, not just as a set
    assert_eq!(first.pinyin.pairs, second.pinyin.pairs);
    assert_eq!(first.data.len(), second.data.len());
    for (id, entry) in first.data.iter() {
        let other = second.data.get(id).expect("same identifiers");
        assert_eq!(entry.traditional, other.traditional);
        assert_eq!(entry.simplified, other.simplified);
        assert_eq!(entry.pinyin_marks, other.pinyin_marks);
        assert_eq!(entry.pinyin_numbers, other.pinyin_numbers);
        assert_eq!(entry.english, other.english);
        assert_eq!(entry.tone_marks, other.tone_marks);
        assert_eq!(entry.hash, other.hash);
        assert_eq!(entry.hsk, other.hsk);
        assert_eq!(entry.word_id, other.word_id);
    }
}
