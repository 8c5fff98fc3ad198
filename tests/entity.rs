use harald::entity::{
    tally_records, usable_character, RecordFileError, RecordOutcome,
    character_chunks, chunk_entity_fields, validate_character_entry, CharacterData,
    ChunkedIngestConfig, EntityRecord, EntryError, FieldValue, ProcessingStats, RecordField,
    SingleCharacterConfig, CharacterProcessingResult,
};

fn text(name: &str, value: &str) -> RecordField {
    RecordField { name: name.to_string(), value: FieldValue::Text(value.to_string()) }
}

fn list(name: &str, values: &[&str]) -> RecordField {
    RecordField {
        name: name.to_string(),
        value: FieldValue::List(values.iter().map(|v| Some(v.to_string())).collect()),
    }
}

#[test]
fn test_chunked_ingest_config_default() {
    let config = ChunkedIngestConfig::default();
    assert_eq!(config.model_name, "harald-phi4");
    assert_eq!(config.max_chunk_size, 250);
    assert_eq!(config.api_endpoint, "http://localhost:11434");
    assert_eq!(config.timeout_secs, 30);
}

#[test]
fn test_single_character_config_default() {
    let config = SingleCharacterConfig::default();
    assert_eq!(config.max_embed_len, 250);
    assert_eq!(config.max_retries, 3);
    assert_eq!(config.retry_delay, 5);
    assert_eq!(config.model, "harald-phi4");
}

fn vision() -> EntityRecord {
    EntityRecord {
        fields: vec![
            text("character_name", "Vision"),
            text("first_appearance", "Avengers #57"),
            list("affiliations", &["Avengers", "West Coast Avengers"]),
            list("core_attributes", &["Synthetic being", "AI consciousness"]),
            list("inspirational_themes", &["Identity", "Humanity"]),
            list("traits", &["Logical", "Empathetic"]),
            text("ai_alignment", "Lawful Good"),
            text("description", "An android created by Ultron"),
        ],
    }
}

#[test]
fn test_character_data_from_json() {
    let character = CharacterData::from_record(&vision());
    assert_eq!(character.character_name, "Vision");
    assert_eq!(character.first_appearance, "Avengers #57");
    assert_eq!(character.affiliations.len(), 2);
    assert_eq!(character.core_attributes.len(), 2);
    assert!(character.description.is_some());
}

#[test]
fn entity_fields_are_chunked_in_label_order() {
    let pairs = chunk_entity_fields(&vision(), 250);
    let labels: Vec<&str> = pairs.iter().map(|(l, _)| l.as_str()).collect();
    assert_eq!(
        labels,
        vec!["character_name", "description", "affiliations", "core_attributes", "inspirational_themes", "traits"]
    );
    assert_eq!(pairs[2].1, "Avengers, West Coast Avengers");
    let chunks = character_chunks(&vision(), 250);
    assert_eq!(chunks.len(), 6);
    assert_eq!(chunks[1].content, "An android created by Ultron");
}

#[test]
fn list_items_that_are_not_strings_are_left_out() {
    let record = EntityRecord {
        fields: vec![RecordField {
            name: "traits".to_string(),
            value: FieldValue::List(vec![Some("Calm".to_string()), None, Some("Kind".to_string())]),
        }],
    };
    let pairs = chunk_entity_fields(&record, 250);
    assert_eq!(pairs, vec![("traits".to_string(), "Calm, Kind".to_string())]);
}

#[test]
fn chunked_ingest_new_test_validate_character_entry_valid() {
    let entry = Some(EntityRecord {
        fields: vec![text("character_name", "Vision"), text("description", "A test character")],
    });
    assert!(validate_character_entry(&entry).is_ok());
}

#[test]
fn chunked_ingest_new_test_validate_character_entry_missing_name() {
    let entry = Some(EntityRecord { fields: vec![text("description", "A test character")] });
    let result = validate_character_entry(&entry);
    assert!(result.is_err());
    assert!(result.unwrap_err().message().contains("character_name"));
}

#[test]
fn chunked_ingest_new_test_validate_character_entry_empty_name() {
    let entry = Some(EntityRecord {
        fields: vec![text("character_name", ""), text("description", "A test character")],
    });
    let result = validate_character_entry(&entry);
    assert!(result.is_err());
    assert!(result.unwrap_err().message().contains("empty"));
}

#[test]
fn single_character_ingest_new_test_validate_character_entry_valid() {
    let entry = Some(EntityRecord {
        fields: vec![text("character_name", "Vision"), text("description", "A test character")],
    });
    assert!(validate_character_entry(&entry).is_ok());
}

#[test]
fn single_character_ingest_new_test_validate_character_entry_missing_name() {
    let entry = Some(EntityRecord { fields: vec![text("description", "A test character")] });
    let result = validate_character_entry(&entry);
    assert!(result.is_err());
    assert!(result.unwrap_err().message().contains("character_name"));
}

#[test]
fn single_character_ingest_new_test_validate_character_entry_empty_name() {
    let entry = Some(EntityRecord {
        fields: vec![text("character_name", ""), text("description", "A test character")],
    });
    let result = validate_character_entry(&entry);
    assert!(result.is_err());
    assert!(result.unwrap_err().message().contains("empty"));
}

#[test]
fn test_validate_character_entry_invalid_structure() {
    let result = validate_character_entry(&None);
    assert!(result.is_err());
    assert!(result.unwrap_err().message().contains("JSON object"));
}

#[test]
fn name_of_wrong_type_is_refused() {
    let entry = Some(EntityRecord {
        fields: vec![RecordField { name: "character_name".to_string(), value: FieldValue::Other }],
    });
    assert_eq!(validate_character_entry(&entry), Err(EntryError::NameNotString));
    let blank = Some(EntityRecord { fields: vec![text("character_name", "  ")] });
    assert_eq!(validate_character_entry(&blank), Err(EntryError::EmptyName));
}

#[test]
fn stats_accumulate_per_record() {
    let mut stats = ProcessingStats::new();
    stats.accumulate(&CharacterProcessingResult {
        chunks_created: 3,
        embeddings_generated: 2,
        failed_embeddings: 1,
    });
    assert_eq!(stats.characters_processed, 1);
    assert_eq!(stats.chunks_created, 3);
    assert_eq!(stats.embeddings_generated, 2);
    assert_eq!(stats.failed_embeddings, 1);
}

#[test]
fn record_file_totals() {
    let outcomes = vec![
        RecordOutcome::Malformed,
        RecordOutcome::Processed(CharacterProcessingResult {
            chunks_created: 4,
            embeddings_generated: 3,
            failed_embeddings: 1,
        }),
        RecordOutcome::Unnamed,
    ];
    let stats = tally_records(&outcomes).unwrap();
    assert_eq!(stats.characters_processed, 1);
    assert_eq!(stats.chunks_created, 4);
    assert_eq!(stats.embeddings_generated, 3);
    assert_eq!(stats.failed_embeddings, 3);
    assert_eq!(
        tally_records(&vec![RecordOutcome::Malformed]).unwrap_err(),
        RecordFileError::NoValidRecords
    );
}

#[test]
fn unnamed_records_are_not_usable() {
    assert!(usable_character(&vision()).is_some());
    let unnamed = EntityRecord { fields: vec![text("description", "x")] };
    assert!(usable_character(&unnamed).is_none());
}
