use harald::embedding::{
    after_failed_attempt, backoff_delay_secs, create_config, exhausted, plan_embedding_chunks,
    validate_embedding, validate_input, EmbedConfig, EmbedError, OutputFault, RetryDecision,
    DEFAULT_ENDPOINT, DEFAULT_MODEL, DEFAULT_TIMEOUT_SECS, MAX_RETRY_ATTEMPTS,
};

#[test]
fn test_embed_config_default() {
    let config = EmbedConfig::default();
    assert_eq!(config.model, DEFAULT_MODEL);
    assert_eq!(config.endpoint, DEFAULT_ENDPOINT);
    assert_eq!(config.timeout_secs, DEFAULT_TIMEOUT_SECS);
    assert_eq!(config.max_retries, MAX_RETRY_ATTEMPTS);
}

#[test]
fn test_create_config() {
    let config = create_config("custom-model", "http://custom:8080/api");
    assert_eq!(config.model, "custom-model");
    assert_eq!(config.endpoint, "http://custom:8080/api");
    assert_eq!(config.timeout_secs, DEFAULT_TIMEOUT_SECS);
}

#[test]
fn test_validate_input() {
    assert!(validate_input("Hello world").is_ok());
    assert!(validate_input("").is_err());
    assert!(validate_input("   ").is_err());
    let long_text = "a".repeat(100_001);
    assert!(validate_input(&long_text).is_err());
}

#[test]
fn input_errors_are_typed() {
    assert_eq!(validate_input(" \t\n"), Err(EmbedError::EmptyInput));
    assert_eq!(validate_input(&"b".repeat(100_001)), Err(EmbedError::InputTooLarge(100_001)));
    assert_eq!(validate_input(&"b".repeat(100_000)), Ok(()));
}

fn check_vector(v: &[f32]) -> Result<(), EmbedError> {
    validate_embedding(v.len(), v.iter().all(|x| x.is_finite()))
}

#[test]
fn test_validate_embedding() {
    let valid_embedding = vec![0.1f32; 384];
    assert!(check_vector(&valid_embedding).is_ok());
    assert!(check_vector(&[]).is_err());
    let small_embedding = vec![0.1f32; 50];
    assert!(check_vector(&small_embedding).is_err());
    let invalid_embedding = vec![f32::NAN; 384];
    assert!(check_vector(&invalid_embedding).is_err());
    let infinite_embedding = vec![f32::INFINITY; 384];
    assert!(check_vector(&infinite_embedding).is_err());
}

#[test]
fn invalid_output_names_the_fault() {
    assert_eq!(validate_embedding(0, true), Err(EmbedError::InvalidOutput(OutputFault::Empty)));
    assert_eq!(
        validate_embedding(99, true),
        Err(EmbedError::InvalidOutput(OutputFault::TooFewDimensions))
    );
    assert_eq!(validate_embedding(100, false), Err(EmbedError::InvalidOutput(OutputFault::NonFinite)));
    assert_eq!(validate_embedding(100, true), Ok(()));
}

#[test]
fn always_failing_service_is_tried_exactly_n_times() {
    let mut config = EmbedConfig::default();
    config.max_retries = 4;
    let mut attempts = 0;
    let mut delays = Vec::new();
    loop {
        attempts += 1;
        match after_failed_attempt(&config, attempts) {
            RetryDecision::RetryAfter(d) => delays.push(d),
            RetryDecision::GiveUp => break,
        }
    }
    assert_eq!(attempts, 4);
    assert_eq!(delays, vec![2, 4, 8]);
    assert_eq!(exhausted(&config), EmbedError::ServiceError(4));
}

#[test]
fn backoff_doubles_and_saturates() {
    assert_eq!(backoff_delay_secs(0), 1);
    assert_eq!(backoff_delay_secs(1), 2);
    assert_eq!(backoff_delay_secs(10), 1024);
    assert_eq!(backoff_delay_secs(62), 1u64 << 62);
    assert_eq!(backoff_delay_secs(63), u64::MAX);
}

#[test]
fn long_text_is_embedded_in_pieces() {
    assert_eq!(plan_embedding_chunks("short", 10), vec!["short"]);
    let pieces = plan_embedding_chunks("abcdefghijkl", 5);
    assert_eq!(pieces, vec!["abcde", "fghij", "kl"]);
}
