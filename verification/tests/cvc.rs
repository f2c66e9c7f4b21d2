use rust_cvc::CVCProcessor;
use rust_cvc::LookupTable;
use rust_cvc::MappingInfo;
use rust_cvc::MappingsData;
use rust_cvc::Metadata;

fn test_mappings() -> MappingsData {
    let mut rl = LookupTable::new();
    rl.insert("large".to_string(), "big".to_string());
    rl.insert("huge".to_string(), "big".to_string());
    rl.insert("joyful".to_string(), "happy".to_string());
    rl.insert("glad".to_string(), "happy".to_string());
    MappingsData {
        metadata: Metadata {
            version: "1.0".to_string(),
            description: "Test mappings".to_string(),
            creation_date: "2024-01-01".to_string(),
            total_mappings: 2,
            sources: vec!["test".to_string()],
            total_synonyms: 4,
        },
        mappings: vec![
            (
                "size_big".to_string(),
                MappingInfo {
                    canonical: "big".to_string(),
                    synonyms: vec!["large".to_string(), "huge".to_string()],
                    frequency_rank: 1,
                    domain: "general".to_string(),
                },
            ),
            (
                "emotion_happy".to_string(),
                MappingInfo {
                    canonical: "happy".to_string(),
                    synonyms: vec!["joyful".to_string(), "glad".to_string()],
                    frequency_rank: 1,
                    domain: "general".to_string(),
                },
            ),
        ],
        reverse_lookup: rl,
    }
}

fn processor() -> CVCProcessor {
    CVCProcessor::new(test_mappings())
}

#[test]
fn test_processor_creation() {
    let p = processor();
    let (out, _stats) = p.process_text("", true);
    assert_eq!(out, "");
}

#[test]
fn test_basic_text_processing() {
    let p = processor();

    let input = "The large building made me joyful.";
    let (output, stats) = p.process_text(input, true);

    assert_eq!(output, "The big building made me happy.");
    assert_eq!(stats.total_words, 6);
    assert_eq!(stats.replacements_made, 2);
    assert!(stats.replacements.len() == 2);
}

#[test]
fn test_case_preservation() {
    let p = processor();

    let input = "The LARGE building made me JOYFUL.";
    let (output, stats) = p.process_text(input, true);

    assert_eq!(output, "The BIG building made me HAPPY.");
    assert_eq!(stats.replacements_made, 2);
}

#[test]
fn test_no_case_preservation() {
    let p = processor();

    let input = "The LARGE building made me JOYFUL.";
    let (output, stats) = p.process_text(input, false);

    assert_eq!(output, "The big building made me happy.");
    assert_eq!(stats.replacements_made, 2);
}

#[test]
fn test_no_matches() {
    let p = processor();

    let input = "The small house made me sad.";
    let (output, stats) = p.process_text(input, true);

    assert_eq!(output, input);
    assert_eq!(stats.replacements_made, 0);
}

#[test]
fn test_punctuation_only_tokens() {
    let p = processor();
    let (output, stats) = p.process_text("??? -- ...", true);
    assert_eq!(output, "??? -- ...");
    assert_eq!(stats.total_words, 3);
    assert_eq!(stats.replacements_made, 0);
}

#[test]
fn test_affix_extraction() {
    let p = processor();
    assert_eq!(
        p.extract_word_parts("(hello!)"),
        Some(("(".to_string(), "hello".to_string(), "!)".to_string()))
    );
    assert_eq!(p.extract_word_parts("?!?"), None);
    assert_eq!(
        p.extract_word_parts("don't"),
        Some(("".to_string(), "don't".to_string(), "".to_string()))
    );
}

#[test]
fn test_interior_punctuation_token() {
    let p = processor();
    let (output, stats) = p.process_text("don't large!", true);
    assert_eq!(output, "don't big!");
    assert_eq!(stats.replacements_made, 1);
}

#[test]
fn test_case_transformer_rules() {
    let p = processor();
    assert_eq!(p.preserve_case("LARGE", "big"), "BIG");
    assert_eq!(p.preserve_case("Large", "big"), "Big");
    assert_eq!(p.preserve_case("large", "BIG"), "big");
    assert_eq!(p.preserve_case("x123", "Big"), "big");
}

#[test]
fn test_idempotent_on_canonical() {
    let p = processor();
    let input = "The big building made me happy.";
    let (out_preserved, stats_preserved) = p.process_text(input, true);
    let (out_raw, stats_raw) = p.process_text(input, false);
    assert_eq!(out_preserved, input);
    assert_eq!(out_raw, input);
    assert_eq!(stats_preserved.replacements_made, 0);
    assert_eq!(stats_raw.replacements_made, 0);
}

#[test]
fn test_replacement_records() {
    let p = processor();
    let (_output, stats) = p.process_text("The large building made me joyful.", true);
    assert_eq!(stats.replacements.len(), 2);
    assert_eq!(stats.replacements[0].position, 1);
    assert_eq!(stats.replacements[0].original, "large");
    assert_eq!(stats.replacements[0].canonical, "big");
    assert_eq!(stats.replacements[1].position, 5);
    assert_eq!(stats.replacements[1].original, "joyful");
    assert_eq!(stats.replacements[1].canonical, "happy");
}

#[test]
fn test_exact_match_beats_case_insensitive() {
    let mut rl = LookupTable::new();
    rl.insert("Large".to_string(), "BIG".to_string());
    rl.insert("large".to_string(), "big".to_string());
    let data = MappingsData {
        metadata: Metadata {
            version: "1.0".to_string(),
            description: "Colliding keys".to_string(),
            creation_date: "2024-01-01".to_string(),
            total_mappings: 1,
            sources: vec!["test".to_string()],
            total_synonyms: 2,
        },
        mappings: vec![],
        reverse_lookup: rl,
    };
    let p = CVCProcessor::new(data);
    assert_eq!(p.process_text("Large", false).0, "BIG");
    assert_eq!(p.process_text("large", false).0, "big");
    // No exact entry for "LARGE": the case-insensitive index decides, and
    // its construction lets the later entry win for the key "large".
    assert_eq!(p.process_text("LARGE", false).0, "big");
}

#[test]
fn test_whitespace_normalization() {
    let p = processor();
    let (output, stats) = p.process_text("a\tlarge   cat", true);
    assert_eq!(output, "a big cat");
    assert_eq!(stats.total_words, 3);
}

#[test]
fn test_empty_and_blank_text() {
    let p = processor();
    let (out_empty, stats_empty) = p.process_text("", true);
    assert_eq!(out_empty, "");
    assert_eq!(stats_empty.total_words, 0);
    assert_eq!(stats_empty.replacements_made, 0);
    let (out_blank, stats_blank) = p.process_text("   ", true);
    assert_eq!(out_blank, "");
    assert_eq!(stats_blank.total_words, 0);
}

#[test]
fn test_process_file_basic() {
    let p = processor();
    let content = "The large building.\nA huge JOYFUL crowd!";
    let (output, stats) = p.process_file("in.txt", "out.txt", content);
    assert_eq!(output, "The big building.\nA big HAPPY crowd!\n");
    assert_eq!(stats.input_file, "in.txt");
    assert_eq!(stats.output_file, "out.txt");
    assert_eq!(stats.total_lines, 2);
    assert_eq!(stats.total_words, 7);
    assert_eq!(stats.total_replacements, 3);
}

#[test]
fn test_process_file_crlf() {
    let p = processor();
    let (output, stats) = p.process_file("in.txt", "out.txt", "large\r\nhuge");
    assert_eq!(output, "big\nbig\n");
    assert_eq!(stats.total_lines, 2);
    assert_eq!(stats.total_words, 2);
    assert_eq!(stats.total_replacements, 2);
}

#[test]
fn test_vocabulary_stats_collapse() {
    let p = processor();
    let stats = p.get_vocabulary_stats("large huge large");
    assert_eq!(stats.original_vocabulary_size, 2);
    assert_eq!(stats.processed_vocabulary_size, 1);
    assert!(stats.vocabulary_reduction >= 1);
    assert_eq!(stats.vocabulary_reduction, 1);
    assert_eq!(stats.total_words, 3);
}

#[test]
fn test_vocabulary_broad_tokenization() {
    let p = processor();
    // The broad rule splits "don't" into two words, unlike the engine's
    // whitespace tokenizer, and lowercases before counting.
    let stats = p.get_vocabulary_stats("don't GLAD");
    assert_eq!(stats.original_vocabulary_size, 3);
    assert_eq!(stats.processed_vocabulary_size, 3);
    assert_eq!(stats.vocabulary_reduction, 0);
    assert_eq!(stats.total_words, 3);
}

#[test]
fn test_lookup_table_last_entry_wins() {
    let mut rl = LookupTable::new();
    rl.insert("large".to_string(), "big".to_string());
    rl.insert("large".to_string(), "huge".to_string());
    assert_eq!(rl.get(&"large".to_string()), Some("huge".to_string()));
    assert_eq!(rl.get(&"missing".to_string()), None);
}
