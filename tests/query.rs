use harald::embedding::EmbedError;
use harald::ingest::truncate_content;
use harald::query::{
    build_context, chat_prompt, extract_answer, query_result, select_context_files, QueryConfig,
    QueryError, QueryResult, MAX_CONTEXT_CHARS, MAX_QUERY_TOKENS, NUM_SEARCH_RESULTS, SEARCH_EF,
};

#[test]
fn query_test_truncate_content() {
    let long_content = "a".repeat(1000);
    assert_eq!(truncate_content(&long_content, 500).len(), 500);
    let short_content = "short";
    assert_eq!(truncate_content(short_content, 500), "short");
}

#[test]
fn query_test_query_config_default() {
    let config = QueryConfig::default();
    assert_eq!(config.max_context_chars, MAX_CONTEXT_CHARS);
    assert_eq!(config.num_results, NUM_SEARCH_RESULTS);
    assert_eq!(config.search_ef, SEARCH_EF);
    assert_eq!(config.max_query_tokens, MAX_QUERY_TOKENS);
    assert_eq!(config.model_name, "harald-phi4");
}

#[test]
fn query_test_query_result_creation() {
    let result = QueryResult {
        response: "test response".to_string(),
        context_files: vec!["test.md".to_string()],
        num_context_docs: 1,
    };
    assert_eq!(result.response, "test response");
    assert_eq!(result.num_context_docs, 1);
    assert_eq!(result.context_files.len(), 1);
    let built = query_result("test response".to_string(), vec!["test.md".to_string()]);
    assert_eq!(built.num_context_docs, 1);
}

#[test]
fn test_build_context_from_results() {
    let metadata = vec!["file1.txt".to_string(), "file2.txt".to_string()];
    let config = QueryConfig::default();
    let files = select_context_files(&vec![0, 1], &metadata, config.num_results).unwrap();
    assert_eq!(files.len(), 2);
    assert_eq!(files[0], "file1.txt");
    assert_eq!(files[1], "file2.txt");
    let contents = vec!["Content from file 1".to_string(), "Content from file 2".to_string()];
    let context = build_context(&contents, config.max_context_chars);
    assert!(context.contains("Content from file 1"));
    assert!(context.contains("Content from file 2"));
}

#[test]
fn test_query_config_custom() {
    let custom_config = QueryConfig {
        root_dir: "/custom/path".to_string(),
        max_context_chars: 1000,
        num_results: 5,
        search_ef: 50,
        max_query_tokens: 200,
        llm_endpoint: "http://custom-endpoint".to_string(),
        model_name: "custom-model".to_string(),
    };
    assert_eq!(custom_config.max_context_chars, 1000);
    assert_eq!(custom_config.num_results, 5);
    assert_eq!(custom_config.search_ef, 50);
    assert_eq!(custom_config.max_query_tokens, 200);
    assert_eq!(custom_config.llm_endpoint, "http://custom-endpoint");
    assert_eq!(custom_config.model_name, "custom-model");
}

#[test]
fn fewer_hits_than_asked_is_no_error() {
    let metadata = vec!["a.md".to_string(), "b.md".to_string(), "c.md".to_string()];
    let files = select_context_files(&vec![2, 0, 1], &metadata, 5).unwrap();
    assert_eq!(files, vec!["c.md", "a.md", "b.md"]);
}

#[test]
fn empty_index_gives_no_results() {
    let metadata: Vec<String> = Vec::new();
    assert_eq!(select_context_files(&Vec::new(), &metadata, 3), Err(QueryError::NoResults));
}

#[test]
fn unknown_doc_id_is_a_consistency_error() {
    let metadata = vec!["a.md".to_string()];
    assert_eq!(
        select_context_files(&vec![0, 4], &metadata, 3),
        Err(QueryError::InconsistentDocId(4))
    );
    assert_eq!(select_context_files(&vec![0, 4], &metadata, 1), Ok(vec!["a.md".to_string()]));
}

#[test]
fn context_is_truncated_and_separated() {
    let contents = vec!["abcdef".to_string(), "xy".to_string()];
    assert_eq!(build_context(&contents, 3), "abc\n\nxy\n\n");
    assert_eq!(chat_prompt("ctx", "why?"), "ctx\n\nwhy?");
}

#[test]
fn empty_answer_is_refused() {
    assert_eq!(extract_answer(None), Err(QueryError::EmptyResponse));
    assert_eq!(extract_answer(Some(String::new())), Err(QueryError::EmptyResponse));
    assert_eq!(extract_answer(Some("42".to_string())), Ok("42".to_string()));
    let _ = QueryError::EmbeddingError(EmbedError::EmptyInput);
}
