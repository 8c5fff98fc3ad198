//! Structured records (one JSON object each, already decoded) and how their
//! selected fields become labelled chunks.

use vstd::prelude::*;
use crate::text::{chars_of, join, push_all, text_eq, trim, trim_bounds, views};
use crate::chunking::{chunk_field, field_size, fixed_pieces};

verus! {

/// The value of one field of a record.
#[derive(Debug, Clone)]
pub enum FieldValue {
    /// A string.
    Text(String),
    /// An array; each item is its string, or `None` when it is not a string.
    List(Vec<Option<String>>),
    /// Any other value.
    Other,
}

/// One named field of a record.
#[derive(Debug, Clone)]
pub struct RecordField {
    /// Field name.
    pub name: String,
    /// Field value.
    pub value: FieldValue,
}

/// A record: an object's fields in order.
#[derive(Debug, Clone)]
pub struct EntityRecord {
    /// The fields.
    pub fields: Vec<RecordField>,
}

/// The value of the first field named `name`.
pub open spec fn lookup(fields: Seq<RecordField>, name: Seq<char>) -> Option<FieldValue>
    decreases fields.len(),
{
    if fields.len() == 0 {
        None
    } else if fields[0].name@ == name {
        Some(fields[0].value)
    } else {
        lookup(fields.drop_first(), name)
    }
}

/// The string held by field `name`, if it is a string.
pub open spec fn text_field(fields: Seq<RecordField>, name: Seq<char>) -> Option<Seq<char>> {
    match lookup(fields, name) {
        Some(FieldValue::Text(s)) => Some(s@),
        _ => None,
    }
}

/// The string items of a list, in order.
pub open spec fn strings_of(items: Seq<Option<String>>) -> Seq<Seq<char>>
    decreases items.len(),
{
    if items.len() == 0 {
        Seq::empty()
    } else {
        let rest = strings_of(items.drop_last());
        match items.last() {
            Some(s) => rest.push(s@),
            None => rest,
        }
    }
}

/// The string items of list field `name`, if it is a list.
pub open spec fn list_field(fields: Seq<RecordField>, name: Seq<char>) -> Option<Seq<Seq<char>>> {
    match lookup(fields, name) {
        Some(FieldValue::List(items)) => Some(strings_of(items@)),
        _ => None,
    }
}

/// Separator placed between the items of a list field.
pub const LIST_SEPARATOR: &'static str = ", ";

/// Finds the first field named `name`.
fn find_field<'a>(fields: &'a Vec<RecordField>, name: &str) -> (r: Option<&'a FieldValue>)
    ensures
        match lookup(fields@, name@) {
            Some(v) => r == Some(&v),
            None => r.is_none(),
        },
{
    let mut i: usize = 0;
    assert(fields@.skip(0) =~= fields@);
    while i < fields.len()
        invariant
            i <= fields.len(),
            lookup(fields@.skip(i as int), name@) == lookup(fields@, name@),
        decreases fields.len() - i,
    {
        let ghost rest = fields@.skip(i as int);
        assert(rest[0] == fields@[i as int]);
        if text_eq(fields[i].name.as_str(), name) {
            return Some(&fields[i].value);
        }
        assert(rest.drop_first() =~= fields@.skip(i + 1));
        i = i + 1;
    }
    assert(fields@.skip(i as int) =~= Seq::<RecordField>::empty());
    None
}

/// The string items of `items` joined with `sep`.
pub fn join_strings(items: &Vec<Option<String>>, sep: &str) -> (r: String)
    ensures
        r@ == join(strings_of(items@), sep@),
{
    let mut out = String::new();
    let mut count: usize = 0;
    let mut i: usize = 0;
    assert(items@.take(0) =~= Seq::<Option<String>>::empty());
    while i < items.len()
        invariant
            i <= items.len(),
            out@ == join(strings_of(items@.take(i as int)), sep@),
            count as nat == strings_of(items@.take(i as int)).len(),
            count <= i,
        decreases items.len() - i,
    {
        let ghost prev = strings_of(items@.take(i as int));
        assert(items@.take(i + 1).drop_last() =~= items@.take(i as int));
        assert(items@.take(i + 1).last() == items@[i as int]);
        match &items[i] {
            Some(s) => {
                if count > 0 {
                    push_all(&mut out, sep);
                }
                push_all(&mut out, s.as_str());
                proof {
                    let now = prev.push(s@);
                    assert(strings_of(items@.take(i + 1)) == now);
                    assert(now.drop_last() =~= prev);
                    if count == 0 {
                        assert(out@ =~= now[0]);
                    }
                }
                count = count + 1;
            },
            None => {},
        }
        i = i + 1;
    }
    assert(items@.take(i as int) =~= items@);
    out
}

/// The fields whose text is chunked, in order: first the string fields,
/// then the list fields.
pub open spec fn text_labels() -> Seq<Seq<char>> {
    seq!["character_name"@, "description"@]
}

/// The list fields that are joined and chunked, in order.
pub open spec fn list_labels() -> Seq<Seq<char>> {
    seq!["affiliations"@, "core_attributes"@, "inspirational_themes"@, "traits"@]
}

/// `chunks` each paired with `label`.
pub open spec fn labelled(label: Seq<char>, chunks: Seq<Seq<char>>) -> Seq<(Seq<char>, Seq<char>)> {
    chunks.map_values(|c: Seq<char>| (label, c))
}

/// The labelled chunks of the string field `label`, if it is a string.
pub open spec fn text_field_chunks(fields: Seq<RecordField>, label: Seq<char>, max_len: usize) -> Seq<
    (Seq<char>, Seq<char>),
> {
    match text_field(fields, label) {
        Some(t) => labelled(label, fixed_pieces(t, field_size(max_len))),
        None => Seq::empty(),
    }
}

/// The labelled chunks of list field `label` joined, if it is a list.
pub open spec fn list_field_chunks(fields: Seq<RecordField>, label: Seq<char>, max_len: usize) -> Seq<
    (Seq<char>, Seq<char>),
> {
    match list_field(fields, label) {
        Some(xs) => labelled(label, fixed_pieces(join(xs, LIST_SEPARATOR@), field_size(max_len))),
        None => Seq::empty(),
    }
}

/// All labelled chunks of a record, field by field in label order.
pub open spec fn entity_chunks(fields: Seq<RecordField>, max_len: usize) -> Seq<
    (Seq<char>, Seq<char>),
> {
    text_field_chunks(fields, text_labels()[0], max_len) + text_field_chunks(
        fields,
        text_labels()[1],
        max_len,
    ) + list_field_chunks(fields, list_labels()[0], max_len) + list_field_chunks(
        fields,
        list_labels()[1],
        max_len,
    ) + list_field_chunks(fields, list_labels()[2], max_len) + list_field_chunks(
        fields,
        list_labels()[3],
        max_len,
    )
}

/// The views of labelled chunks.
pub open spec fn pair_views(v: Seq<(String, String)>) -> Seq<(Seq<char>, Seq<char>)> {
    v.map_values(|p: (String, String)| (p.0@, p.1@))
}

/// Appends `chunks`, each labelled `label`, to `out`.
fn push_labelled(out: &mut Vec<(String, String)>, label: &str, chunks: Vec<String>)
    ensures
        pair_views(final(out)@) == pair_views(old(out)@) + labelled(label@, views(chunks@)),
{
    let mut i: usize = 0;
    while i < chunks.len()
        invariant
            i <= chunks.len(),
            pair_views(out@) == pair_views(old(out)@) + labelled(label@, views(chunks@.take(i as int))),
        decreases chunks.len() - i,
    {
        let ghost o = pair_views(out@);
        let c = chunks[i].clone();
        out.push((label.to_owned(), c));
        assert(pair_views(out@) =~= o.push((label@, chunks@[i as int]@)));
        assert(chunks@.take(i + 1) =~= chunks@.take(i as int).push(chunks@[i as int]));
        assert(labelled(label@, views(chunks@.take(i + 1))) =~= labelled(
            label@,
            views(chunks@.take(i as int)),
        ).push((label@, chunks@[i as int]@)));
        i = i + 1;
    }
    assert(chunks@.take(i as int) =~= chunks@);
}

/// Chunks string field `label` of `fields` onto `out`.
fn push_text_field(out: &mut Vec<(String, String)>, fields: &Vec<RecordField>, label: &str, max_len: usize)
    requires
        max_len > 0,
    ensures
        pair_views(final(out)@) == pair_views(old(out)@) + text_field_chunks(fields@, label@, max_len),
{
    match find_field(fields, label) {
        Some(FieldValue::Text(s)) => {
            let chunks = chunk_field(s.as_str(), max_len);
            push_labelled(out, label, chunks);
        },
        _ => {
            assert(pair_views(out@) =~= pair_views(out@) + Seq::<(Seq<char>, Seq<char>)>::empty());
        },
    }
}

/// Joins list field `label` of `fields` and chunks it onto `out`.
fn push_list_field(out: &mut Vec<(String, String)>, fields: &Vec<RecordField>, label: &str, max_len: usize)
    requires
        max_len > 0,
    ensures
        pair_views(final(out)@) == pair_views(old(out)@) + list_field_chunks(fields@, label@, max_len),
{
    match find_field(fields, label) {
        Some(FieldValue::List(items)) => {
            let joined = join_strings(items, LIST_SEPARATOR);
            let chunks = chunk_field(joined.as_str(), max_len);
            push_labelled(out, label, chunks);
        },
        _ => {
            assert(pair_views(out@) =~= pair_views(out@) + Seq::<(Seq<char>, Seq<char>)>::empty());
        },
    }
}

/// Flattens the selected fields of a record into `(label, chunk)` pairs:
/// `character_name` and `description` when they are strings, then
/// `affiliations`, `core_attributes`, `inspirational_themes` and `traits`
/// joined with `", "` when they are lists; each cut into pieces of at most
/// `max_len` (and never more than 250) characters.
pub fn chunk_entity_fields(record: &EntityRecord, max_len: usize) -> (r: Vec<(String, String)>)
    requires
        max_len > 0,
    ensures
        pair_views(r@) == entity_chunks(record.fields@, max_len),
{
    let f = &record.fields;
    let mut out: Vec<(String, String)> = Vec::new();
    proof {
        reveal_strlit("character_name");
        reveal_strlit("description");
        reveal_strlit("affiliations");
        reveal_strlit("core_attributes");
        reveal_strlit("inspirational_themes");
        reveal_strlit("traits");
    }
    push_text_field(&mut out, f, "character_name", max_len);
    push_text_field(&mut out, f, "description", max_len);
    push_list_field(&mut out, f, "affiliations", max_len);
    push_list_field(&mut out, f, "core_attributes", max_len);
    push_list_field(&mut out, f, "inspirational_themes", max_len);
    push_list_field(&mut out, f, "traits", max_len);
    assert(pair_views(Seq::<(String, String)>::empty()) =~= Seq::<(Seq<char>, Seq<char>)>::empty());
    assert(pair_views(out@) =~= entity_chunks(record.fields@, max_len));
    out
}


/// Model asked for by the record pipelines.
pub const DEFAULT_ENTITY_MODEL: &'static str = "harald-phi4";

/// A character record read into named fields.
#[derive(Debug, Clone)]
pub struct CharacterData {
    pub character_name: String,
    pub first_appearance: String,
    pub affiliations: Vec<String>,
    pub core_attributes: Vec<String>,
    pub inspirational_themes: Vec<String>,
    pub traits: Vec<String>,
    pub ai_alignment: String,
    pub description: Option<String>,
}

/// The string of field `name`, or empty text when it is absent or not a string.
pub open spec fn text_or_empty(fields: Seq<RecordField>, name: Seq<char>) -> Seq<char> {
    match text_field(fields, name) {
        Some(t) => t,
        None => Seq::empty(),
    }
}

/// The string items of field `name`, or none when it is absent or not a list.
pub open spec fn list_or_empty(fields: Seq<RecordField>, name: Seq<char>) -> Seq<Seq<char>> {
    match list_field(fields, name) {
        Some(xs) => xs,
        None => Seq::empty(),
    }
}

/// The string of field `name`, or empty text.
fn text_of(fields: &Vec<RecordField>, name: &str) -> (r: String)
    ensures
        r@ == text_or_empty(fields@, name@),
{
    match find_field(fields, name) {
        Some(FieldValue::Text(s)) => s.clone(),
        _ => String::new(),
    }
}

/// The string items of list field `name`, or none.
fn list_of(fields: &Vec<RecordField>, name: &str) -> (r: Vec<String>)
    ensures
        views(r@) == list_or_empty(fields@, name@),
{
    let mut out: Vec<String> = Vec::new();
    match find_field(fields, name) {
        Some(FieldValue::List(items)) => {
            let mut i: usize = 0;
            assert(items@.take(0) =~= Seq::<Option<String>>::empty());
            assert(views(out@) =~= Seq::<Seq<char>>::empty());
            while i < items.len()
                invariant
                    i <= items.len(),
                    views(out@) == strings_of(items@.take(i as int)),
                decreases items.len() - i,
            {
                assert(items@.take(i + 1).drop_last() =~= items@.take(i as int));
                assert(items@.take(i + 1).last() == items@[i as int]);
                match &items[i] {
                    Some(s) => {
                        let ghost o = views(out@);
                        let c = s.clone();
                        out.push(c);
                        assert(views(out@) =~= o.push(s@));
                    },
                    None => {},
                }
                i = i + 1;
            }
            assert(items@.take(i as int) =~= items@);
        },
        _ => {
            assert(views(out@) =~= Seq::<Seq<char>>::empty());
        },
    }
    out
}

impl CharacterData {
    /// Reads a record's fields: a missing or non-string text field reads as
    /// empty, a missing or non-list list field as no items, and a list keeps
    /// only its string items.
    pub fn from_record(record: &EntityRecord) -> (r: CharacterData)
        ensures
            r.character_name@ == text_or_empty(record.fields@, "character_name"@),
            r.first_appearance@ == text_or_empty(record.fields@, "first_appearance"@),
            views(r.affiliations@) == list_or_empty(record.fields@, "affiliations"@),
            views(r.core_attributes@) == list_or_empty(record.fields@, "core_attributes"@),
            views(r.inspirational_themes@) == list_or_empty(record.fields@, "inspirational_themes"@),
            views(r.traits@) == list_or_empty(record.fields@, "traits"@),
            r.ai_alignment@ == text_or_empty(record.fields@, "ai_alignment"@),
            match text_field(record.fields@, "description"@) {
                Some(t) => r.description is Some && r.description->0@ == t,
                None => r.description is None,
            },
    {
        let f = &record.fields;
        let description = match find_field(f, "description") {
            Some(FieldValue::Text(s)) => Some(s.clone()),
            _ => None,
        };
        CharacterData {
            character_name: text_of(f, "character_name"),
            first_appearance: text_of(f, "first_appearance"),
            affiliations: list_of(f, "affiliations"),
            core_attributes: list_of(f, "core_attributes"),
            inspirational_themes: list_of(f, "inspirational_themes"),
            traits: list_of(f, "traits"),
            ai_alignment: text_of(f, "ai_alignment"),
            description,
        }
    }
}

/// Why a character entry is refused.
#[derive(Debug, Clone, Copy, PartialEq, Eq, Structural)]
pub enum EntryError {
    /// The entry is not an object.
    NotObject,
    /// The entry has no `character_name` field.
    MissingName,
    /// `character_name` is not a string.
    NameNotString,
    /// `character_name` is blank.
    EmptyName,
}

impl EntryError {
    /// A sentence describing the refusal.
    pub fn message(&self) -> (r: String)
        ensures
            r@ == match *self {
                EntryError::NotObject => "Character entry must be a JSON object"@,
                EntryError::MissingName => "Character entry must have 'character_name' field"@,
                EntryError::NameNotString => "Character name must be a string"@,
                EntryError::EmptyName => "Character name cannot be empty"@,
            },
    {
        match self {
            EntryError::NotObject => "Character entry must be a JSON object".to_owned(),
            EntryError::MissingName => "Character entry must have 'character_name' field".to_owned(),
            EntryError::NameNotString => "Character name must be a string".to_owned(),
            EntryError::EmptyName => "Character name cannot be empty".to_owned(),
        }
    }
}

/// The verdict on an entry: `None` stands for a value that is not an object.
pub open spec fn entry_verdict(entry: Option<EntityRecord>) -> Result<(), EntryError> {
    match entry {
        None => Err(EntryError::NotObject),
        Some(rec) => match lookup(rec.fields@, "character_name"@) {
            None => Err(EntryError::MissingName),
            Some(FieldValue::Text(s)) => if trim(s@).len() == 0 {
                Err(EntryError::EmptyName)
            } else {
                Ok(())
            },
            Some(_) => Err(EntryError::NameNotString),
        },
    }
}

/// Checks that an entry is an object whose `character_name` is a string
/// that is not blank.
pub fn validate_character_entry(entry: &Option<EntityRecord>) -> (r: Result<(), EntryError>)
    ensures
        r == entry_verdict(*entry),
{
    match entry {
        None => Err(EntryError::NotObject),
        Some(rec) => match find_field(&rec.fields, "character_name") {
            None => Err(EntryError::MissingName),
            Some(FieldValue::Text(s)) => {
                let cs = chars_of(s.as_str());
                assert(cs@.subrange(0, cs.len() as int) =~= cs@);
                let (a, b) = trim_bounds(&cs, 0, cs.len());
                if a == b {
                    Err(EntryError::EmptyName)
                } else {
                    Ok(())
                }
            },
            Some(_) => Err(EntryError::NameNotString),
        },
    }
}

/// One labelled chunk of a record.
#[derive(Debug, Clone)]
pub struct CharacterChunk {
    pub label: String,
    pub content: String,
}

/// The views of labelled chunks.
pub open spec fn chunk_views(v: Seq<CharacterChunk>) -> Seq<(Seq<char>, Seq<char>)> {
    v.map_values(|c: CharacterChunk| (c.label@, c.content@))
}

/// The chunks of a record as labelled values.
pub fn character_chunks(record: &EntityRecord, max_len: usize) -> (r: Vec<CharacterChunk>)
    requires
        max_len > 0,
    ensures
        chunk_views(r@) == entity_chunks(
            record.fields@,
            max_len,
        ),
{
    let pairs = chunk_entity_fields(record, max_len);
    let mut out: Vec<CharacterChunk> = Vec::new();
    let mut i: usize = 0;
    while i < pairs.len()
        invariant
            i <= pairs.len(),
            chunk_views(out@) == pair_views(pairs@).take(
                i as int,
            ),
        decreases pairs.len() - i,
    {
        let ghost o = chunk_views(out@);
        let ghost pv = pair_views(pairs@);
        let label = pairs[i].0.clone();
        let content = pairs[i].1.clone();
        assert(label@ == pairs@[i as int].0@ && content@ == pairs@[i as int].1@);
        assert(pair_views(pairs@)[i as int] == (label@, content@));
        let ghost lv = (label@, content@);
        out.push(CharacterChunk { label, content });
        assert(chunk_views(out@) =~= o.push(lv));
        assert(pv.take(i + 1) =~= pv.take(i as int).push(lv));
        i = i + 1;
    }
    assert(pair_views(pairs@).take(i as int) =~= pair_views(pairs@));
    out
}

/// Settings of record-by-record ingestion.
#[derive(Debug, Clone)]
pub struct ChunkedIngestConfig {
    /// Model name.
    pub model_name: String,
    /// Largest chunk, in characters.
    pub max_chunk_size: usize,
    /// Base URL of the embedding service.
    pub api_endpoint: String,
    /// Seconds one request may take.
    pub timeout_secs: u64,
}

impl Default for ChunkedIngestConfig {
    fn default() -> (r: ChunkedIngestConfig)
        ensures
            r.model_name@ == DEFAULT_ENTITY_MODEL@,
            r.max_chunk_size == 250,
            r.api_endpoint@ == "http://localhost:11434"@,
            r.timeout_secs == 30,
    {
        ChunkedIngestConfig {
            model_name: DEFAULT_ENTITY_MODEL.to_owned(),
            max_chunk_size: 250,
            api_endpoint: "http://localhost:11434".to_owned(),
            timeout_secs: 30,
        }
    }
}

/// Settings of single-record processing.
#[derive(Debug, Clone)]
pub struct SingleCharacterConfig {
    /// Largest chunk sent for embedding.
    pub max_embed_len: usize,
    /// Attempts per embedding.
    pub max_retries: usize,
    /// Seconds between attempts.
    pub retry_delay: usize,
    /// Model name.
    pub model: String,
}

impl Default for SingleCharacterConfig {
    fn default() -> (r: SingleCharacterConfig)
        ensures
            r.max_embed_len == 250,
            r.max_retries == 3,
            r.retry_delay == 5,
            r.model@ == DEFAULT_ENTITY_MODEL@,
    {
        SingleCharacterConfig {
            max_embed_len: 250,
            max_retries: 3,
            retry_delay: 5,
            model: DEFAULT_ENTITY_MODEL.to_owned(),
        }
    }
}

/// Outcome of processing one record.
#[derive(Debug, Clone)]
pub struct ProcessingResult {
    /// Files written.
    pub files_created: usize,
    /// Embeddings made.
    pub embeddings_generated: usize,
    /// Whether processing succeeded.
    pub success: bool,
    /// What went wrong, if anything.
    pub error: Option<String>,
}

/// Counts of one record's chunks.
#[derive(Debug, Clone, Copy)]
pub struct CharacterProcessingResult {
    pub chunks_created: usize,
    pub embeddings_generated: usize,
    pub failed_embeddings: usize,
}

/// Running totals over the records of a file.
#[derive(Debug, Clone, Copy)]
pub struct ProcessingStats {
    pub characters_processed: usize,
    pub chunks_created: usize,
    pub embeddings_generated: usize,
    pub failed_embeddings: usize,
}

impl ProcessingStats {
    /// All totals zero.
    pub fn new() -> (r: ProcessingStats)
        ensures
            r.characters_processed == 0,
            r.chunks_created == 0,
            r.embeddings_generated == 0,
            r.failed_embeddings == 0,
    {
        ProcessingStats {
            characters_processed: 0,
            chunks_created: 0,
            embeddings_generated: 0,
            failed_embeddings: 0,
        }
    }

    /// Adds one processed record's counts.
    pub fn accumulate(&mut self, result: &CharacterProcessingResult)
        requires
            old(self).characters_processed < usize::MAX,
            old(self).chunks_created + result.chunks_created <= usize::MAX,
            old(self).embeddings_generated + result.embeddings_generated <= usize::MAX,
            old(self).failed_embeddings + result.failed_embeddings <= usize::MAX,
        ensures
            final(self).characters_processed == old(self).characters_processed + 1,
            final(self).chunks_created == old(self).chunks_created + result.chunks_created,
            final(self).embeddings_generated == old(self).embeddings_generated
                + result.embeddings_generated,
            final(self).failed_embeddings == old(self).failed_embeddings + result.failed_embeddings,
    {
        self.characters_processed = self.characters_processed + 1;
        self.chunks_created = self.chunks_created + result.chunks_created;
        self.embeddings_generated = self.embeddings_generated + result.embeddings_generated;
        self.failed_embeddings = self.failed_embeddings + result.failed_embeddings;
    }
}


/// The chunk texts of one record, labels left out.
pub open spec fn record_texts(fields: Seq<RecordField>, max_len: usize) -> Seq<Seq<char>> {
    entity_chunks(fields, max_len).map_values(|p: (Seq<char>, Seq<char>)| p.1)
}

/// The chunk texts of `records`, record by record in order.
pub open spec fn records_texts(records: Seq<EntityRecord>, max_len: usize) -> Seq<Seq<char>>
    decreases records.len(),
{
    if records.len() == 0 {
        Seq::empty()
    } else {
        records_texts(records.drop_last(), max_len) + record_texts(records.last().fields@, max_len)
    }
}

/// Every chunk text of every record, in order; each becomes one index entry.
pub fn file_chunk_texts(records: &Vec<EntityRecord>, max_len: usize) -> (r: Vec<String>)
    requires
        max_len > 0,
    ensures
        views(r@) == records_texts(records@, max_len),
{
    let mut out: Vec<String> = Vec::new();
    let mut i: usize = 0;
    assert(records@.take(0) =~= Seq::<EntityRecord>::empty());
    while i < records.len()
        invariant
            i <= records.len(),
            max_len > 0,
            views(out@) == records_texts(records@.take(i as int), max_len),
        decreases records.len() - i,
    {
        let pairs = chunk_entity_fields(&records[i], max_len);
        let ghost before = views(out@);
        let ghost texts = record_texts(records@[i as int].fields@, max_len);
        let mut k: usize = 0;
        while k < pairs.len()
            invariant
                k <= pairs.len(),
                pair_views(pairs@) == entity_chunks(records@[i as int].fields@, max_len),
                texts == record_texts(records@[i as int].fields@, max_len),
                views(out@) == before + texts.take(k as int),
            decreases pairs.len() - k,
        {
            let c = pairs[k].1.clone();
            assert(c@ == texts[k as int]);
            let ghost o = views(out@);
            out.push(c);
            assert(views(out@) =~= o.push(c@));
            assert(texts.take(k + 1) =~= texts.take(k as int).push(texts[k as int]));
            k = k + 1;
        }
        assert(texts.take(k as int) =~= texts);
        assert(records@.take(i + 1).drop_last() =~= records@.take(i as int));
        assert(records@.take(i + 1).last() == records@[i as int]);
        i = i + 1;
    }
    assert(records@.take(i as int) =~= records@);
    out
}

/// The chunk texts of one file: a Markdown file is one text cut into
/// pieces; a JSON or JSONL file gives the chunks of its records.
pub fn file_chunks(kind: crate::ingest::FileKind, content: &str, records: &Vec<EntityRecord>, max_len: usize) -> (r: Vec<String>)
    requires
        max_len > 0,
    ensures
        kind == crate::ingest::FileKind::Markdown ==> views(r@) == fixed_pieces(content@, field_size(max_len)),
        kind != crate::ingest::FileKind::Markdown ==> views(r@) == records_texts(records@, max_len),
{
    match kind {
        crate::ingest::FileKind::Markdown => chunk_field(content, max_len),
        _ => file_chunk_texts(records, max_len),
    }
}


/// What became of one line of a record file.
#[derive(Debug, Clone, Copy)]
pub enum RecordOutcome {
    /// The line is not well-formed JSON.
    Malformed,
    /// The record has no usable `character_name`.
    Unnamed,
    /// The record was chunked and its chunks sent for embedding.
    Processed(CharacterProcessingResult),
}

/// Totals over `outs`: records processed, chunks, embeddings made, and
/// failures (unusable lines and failed embeddings).
pub open spec fn tally(outs: Seq<RecordOutcome>) -> (nat, nat, nat, nat)
    decreases outs.len(),
{
    if outs.len() == 0 {
        (0, 0, 0, 0)
    } else {
        let (p, c, e, f) = tally(outs.drop_last());
        match outs.last() {
            RecordOutcome::Processed(r) => (
                p + 1,
                c + r.chunks_created as nat,
                e + r.embeddings_generated as nat,
                f + r.failed_embeddings as nat,
            ),
            _ => (p, c, e, f + 1),
        }
    }
}

proof fn lemma_tally_prefix(outs: Seq<RecordOutcome>, i: int)
    requires
        0 <= i <= outs.len(),
    ensures
        tally(outs.take(i)).0 <= tally(outs).0,
        tally(outs.take(i)).1 <= tally(outs).1,
        tally(outs.take(i)).2 <= tally(outs).2,
        tally(outs.take(i)).3 <= tally(outs).3,
    decreases outs.len() - i,
{
    if i < outs.len() {
        lemma_tally_prefix(outs, i + 1);
        assert(outs.take(i + 1).drop_last() =~= outs.take(i));
    } else {
        assert(outs.take(i) =~= outs);
    }
}

/// The four totals of `s`, in the order `tally` gives them.
pub open spec fn stats_view(s: ProcessingStats) -> (nat, nat, nat, nat) {
    (
        s.characters_processed as nat,
        s.chunks_created as nat,
        s.embeddings_generated as nat,
        s.failed_embeddings as nat,
    )
}

/// A file whose lines gave no usable record.
#[derive(Debug, Clone, Copy, PartialEq, Eq, Structural)]
pub enum RecordFileError {
    /// No line held a record with a name.
    NoValidRecords,
}

/// Sums the outcomes of a record file's lines; a file with no processed
/// record is an error.
pub fn tally_records(outcomes: &Vec<RecordOutcome>) -> (r: Result<ProcessingStats, RecordFileError>)
    requires
        tally(outcomes@).0 <= usize::MAX,
        tally(outcomes@).1 <= usize::MAX,
        tally(outcomes@).2 <= usize::MAX,
        tally(outcomes@).3 <= usize::MAX,
    ensures
        tally(outcomes@).0 == 0 ==> r == Err::<ProcessingStats, RecordFileError>(
            RecordFileError::NoValidRecords,
        ),
        tally(outcomes@).0 > 0 ==> r is Ok && stats_view(r->Ok_0) == tally(outcomes@),
{
    let mut stats = ProcessingStats::new();
    let mut i: usize = 0;
    assert(outcomes@.take(0) =~= Seq::<RecordOutcome>::empty());
    while i < outcomes.len()
        invariant
            i <= outcomes.len(),
            tally(outcomes@).0 <= usize::MAX,
            tally(outcomes@).1 <= usize::MAX,
            tally(outcomes@).2 <= usize::MAX,
            tally(outcomes@).3 <= usize::MAX,
            stats_view(stats) == tally(outcomes@.take(i as int)),
        decreases outcomes.len() - i,
    {
        proof {
            lemma_tally_prefix(outcomes@, i + 1);
            assert(outcomes@.take(i + 1).drop_last() =~= outcomes@.take(i as int));
            assert(outcomes@.take(i + 1).last() == outcomes@[i as int]);
        }
        match &outcomes[i] {
            RecordOutcome::Processed(result) => stats.accumulate(result),
            _ => {
                stats.failed_embeddings = stats.failed_embeddings + 1;
            },
        }
        i = i + 1;
    }
    assert(outcomes@.take(i as int) =~= outcomes@);
    if stats.characters_processed == 0 {
        Err(RecordFileError::NoValidRecords)
    } else {
        Ok(stats)
    }
}

/// The character a record describes, when it has a name to go by.
pub fn usable_character(record: &EntityRecord) -> (r: Option<CharacterData>)
    ensures
        text_or_empty(record.fields@, "character_name"@).len() == 0 <==> r is None,
        r matches Some(c) ==> c.character_name@ == text_or_empty(record.fields@, "character_name"@),
{
    let c = CharacterData::from_record(record);
    if c.character_name.as_str().unicode_len() == 0 {
        None
    } else {
        Some(c)
    }
}

} // verus!
