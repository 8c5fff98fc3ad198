use harald::chunking::DEFAULT_CHUNK_SIZE;
use harald::entity::{file_chunk_texts, EntityRecord, FieldValue, RecordField};
use harald::ingest::{
    file_kind, is_supported_file, nonblank_lines, plan_index, should_skip_path, truncate_content,
    validate_jsonl_lines, FileKind, FileOutcome, IngestConfig, MAX_EMBEDDING_TOKENS,
    MAX_FILE_CHARS,
};

#[test]
fn test_should_skip_path() {
    assert!(should_skip_path(".git"));
    assert!(should_skip_path("project/.git"));
    assert!(should_skip_path("target"));
    assert!(!should_skip_path("src"));
    assert!(!should_skip_path("README.md"));
}

#[test]
fn skipped_directories_are_excluded_at_any_depth() {
    assert!(should_skip_path("project/node_modules/pkg/index.json"));
    assert!(should_skip_path("repo/docs/api/types.md"));
    assert!(!should_skip_path("repo/docs/guide/api.md"));
    assert!(!should_skip_path("repo/targets/notes.md"));
}

#[test]
fn test_is_supported_file() {
    assert!(is_supported_file("README.md"));
    assert!(is_supported_file("config.json"));
    assert!(!is_supported_file("binary.exe"));
    assert!(!is_supported_file("script.py"));
}

#[test]
fn file_kinds_follow_the_extension() {
    assert_eq!(file_kind("data/heroes.jsonl"), Some(FileKind::Jsonl));
    assert_eq!(file_kind("a/b.c/notes.md"), Some(FileKind::Markdown));
    assert_eq!(file_kind("x.json"), Some(FileKind::Json));
    assert_eq!(file_kind(".json"), None);
    assert_eq!(file_kind("archive.json.gz"), None);
    assert_eq!(file_kind("noext"), None);
}

#[test]
fn ingest_test_truncate_content() {
    let long_content = "a".repeat(1000);
    assert_eq!(truncate_content(&long_content, 500).len(), 500);
    let short_content = "short";
    assert_eq!(truncate_content(short_content, 500), "short");
}

#[test]
fn truncation_counts_characters() {
    assert_eq!(truncate_content("héllo wörld", 4), "héll");
}

#[test]
fn test_ingest_config_default() {
    let config = IngestConfig::default();
    assert_eq!(config.max_chars, MAX_FILE_CHARS);
    assert_eq!(config.max_tokens, MAX_EMBEDDING_TOKENS);
}

fn text_field(name: &str, value: &str) -> RecordField {
    RecordField { name: name.to_string(), value: FieldValue::Text(value.to_string()) }
}

#[test]
fn one_record_file_gives_one_entry_per_field() {
    let record = EntityRecord {
        fields: vec![
            text_field("character_name", "Vision"),
            text_field("description", "An android created by Ultron"),
        ],
    };
    let chunks = file_chunk_texts(&vec![record], DEFAULT_CHUNK_SIZE);
    assert_eq!(chunks, vec!["Vision", "An android created by Ultron"]);

    let path = "heroes/vision.json".to_string();
    let vectors: Vec<Vec<f32>> = chunks.iter().map(|c| vec![c.len() as f32; 3]).collect();
    let plan = plan_index(&vec![path.clone()], vec![FileOutcome { file_id: 0, vectors }]);
    assert_eq!(plan.entries.len(), 2);
    assert_eq!(plan.metadata, vec![path.clone(), path]);
}

fn outcome(file_id: usize, vectors: Vec<u32>) -> FileOutcome<u32> {
    FileOutcome { file_id, vectors }
}

#[test]
fn doc_ids_do_not_depend_on_completion_order() {
    let paths: Vec<String> = vec!["a.json".into(), "b.json".into(), "c.json".into(), "d.json".into()];
    let first = plan_index(&paths, vec![outcome(0, vec![1, 2]), outcome(2, vec![5]), outcome(3, vec![7, 8, 9])]);
    let second = plan_index(&paths, vec![outcome(3, vec![7, 8, 9]), outcome(0, vec![1, 2]), outcome(2, vec![5])]);
    assert_eq!(first.entries, vec![1, 2, 5, 7, 8, 9]);
    assert_eq!(first.entries, second.entries);
    assert_eq!(first.metadata, second.metadata);
    assert_eq!(first.metadata, vec!["a.json", "a.json", "c.json", "d.json", "d.json", "d.json"]);
}

#[test]
fn jsonl_lines_are_counted_and_blank_lines_ignored() {
    let content = "{\"a\": 1}\n\n  \nnot json\r\n[1, 2]\n";
    assert_eq!(validate_jsonl_lines(content), (2, 1));
    assert_eq!(nonblank_lines(content), vec!["{\"a\": 1}", "not json", "[1, 2]"]);
    assert_eq!(validate_jsonl_lines(""), (0, 0));
}
