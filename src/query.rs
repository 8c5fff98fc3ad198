//! Query decisions: which search hits become context, how the context is
//! assembled, and when an answer counts as usable.

use vstd::prelude::*;
use crate::embedding::EmbedError;
use crate::ingest::truncate_content;
use crate::text::{push_all, views};

verus! {

/// Characters taken from each retrieved file.
pub const MAX_CONTEXT_CHARS: usize = 200;

/// Hits asked of the index.
pub const NUM_SEARCH_RESULTS: usize = 3;

/// Search effort of the index.
pub const SEARCH_EF: usize = 20;

/// Token budget of the query's embedding request.
pub const MAX_QUERY_TOKENS: usize = 120;

/// Separator written after each file's text in the context, and between
/// context and question.
pub const CONTEXT_SEPARATOR: &'static str = "\n\n";

/// Settings of one query.
#[derive(Debug, Clone)]
pub struct QueryConfig {
    /// Directory whose `data` folder holds the index.
    pub root_dir: String,
    /// Characters taken from each retrieved file.
    pub max_context_chars: usize,
    /// Hits asked of the index.
    pub num_results: usize,
    /// Search effort of the index.
    pub search_ef: usize,
    /// Token budget of the query's embedding request.
    pub max_query_tokens: usize,
    /// Chat endpoint URL.
    pub llm_endpoint: String,
    /// Chat model name.
    pub model_name: String,
}

impl Default for QueryConfig {
    fn default() -> (r: QueryConfig)
        ensures
            r.root_dir@ == "."@,
            r.max_context_chars == MAX_CONTEXT_CHARS,
            r.num_results == NUM_SEARCH_RESULTS,
            r.search_ef == SEARCH_EF,
            r.max_query_tokens == MAX_QUERY_TOKENS,
            r.llm_endpoint@ == "http://127.0.0.1:11434/api/chat"@,
            r.model_name@ == "harald-phi4"@,
    {
        QueryConfig {
            root_dir: ".".to_owned(),
            max_context_chars: MAX_CONTEXT_CHARS,
            num_results: NUM_SEARCH_RESULTS,
            search_ef: SEARCH_EF,
            max_query_tokens: MAX_QUERY_TOKENS,
            llm_endpoint: "http://127.0.0.1:11434/api/chat".to_owned(),
            model_name: "harald-phi4".to_owned(),
        }
    }
}

/// What a query returns.
#[derive(Debug, Clone)]
pub struct QueryResult {
    /// The generated answer.
    pub response: String,
    /// Files used as context, nearest first.
    pub context_files: Vec<String>,
    /// Number of files used as context.
    pub num_context_docs: usize,
}

/// Failures of a query.
#[derive(Debug, Clone, Copy, PartialEq, Eq, Structural)]
pub enum QueryError {
    /// The index or its metadata is missing, unreadable or malformed.
    IndexLoadError,
    /// The question could not be embedded.
    EmbeddingError(EmbedError),
    /// The index returned no hit.
    NoResults,
    /// A hit's doc id has no metadata entry; the id.
    InconsistentDocId(usize),
    /// The chat service returned no usable text.
    EmptyResponse,
}

/// The first of `ids` with no metadata entry, if any.
pub open spec fn first_unknown(ids: Seq<usize>, n: nat) -> Option<usize>
    decreases ids.len(),
{
    if ids.len() == 0 {
        None
    } else if ids[0] >= n {
        Some(ids[0])
    } else {
        first_unknown(ids.drop_first(), n)
    }
}

/// The hits that are used: the first `k` of them.
pub open spec fn used_hits(ids: Seq<usize>, k: nat) -> Seq<usize> {
    if ids.len() <= k {
        ids
    } else {
        ids.take(k as int)
    }
}

/// The metadata entries that `ids` name.
pub open spec fn files_of(ids: Seq<usize>, metadata: Seq<String>) -> Seq<Seq<char>> {
    ids.map_values(|id: usize| metadata[id as int]@)
}

/// Picks the files of the nearest hits (nearest first, at most
/// `num_results`). No hit is `NoResults`; a hit whose doc id has no
/// metadata entry is a broken index, reported as `InconsistentDocId`.
pub fn select_context_files(doc_ids: &Vec<usize>, metadata: &Vec<String>, num_results: usize) -> (r:
    Result<Vec<String>, QueryError>)
    ensures
        doc_ids.len() == 0 ==> r == Err::<Vec<String>, QueryError>(QueryError::NoResults),
        doc_ids.len() > 0 ==> match first_unknown(
            used_hits(doc_ids@, num_results as nat),
            metadata.len() as nat,
        ) {
            Some(id) => r == Err::<Vec<String>, QueryError>(QueryError::InconsistentDocId(id)),
            None => r is Ok && views(r->Ok_0@) == files_of(
                used_hits(doc_ids@, num_results as nat),
                metadata@,
            ),
        },
{
    if doc_ids.len() == 0 {
        return Err(QueryError::NoResults);
    }
    let k = if doc_ids.len() <= num_results {
        doc_ids.len()
    } else {
        num_results
    };
    let ghost hits = used_hits(doc_ids@, num_results as nat);
    assert(hits =~= doc_ids@.take(k as int));
    let mut out: Vec<String> = Vec::new();
    let mut i: usize = 0;
    assert(hits.skip(0) =~= hits);
    assert(views(out@) =~= files_of(hits.take(0), metadata@));
    while i < k
        invariant
            i <= k <= doc_ids.len(),
            hits == doc_ids@.take(k as int),
            hits == used_hits(doc_ids@, num_results as nat),
            first_unknown(hits.skip(i as int), metadata.len() as nat) == first_unknown(
                hits,
                metadata.len() as nat,
            ),
            forall|m: int| 0 <= m < i ==> hits[m] < metadata.len(),
            views(out@) == files_of(hits.take(i as int), metadata@),
        decreases k - i,
    {
        let id = doc_ids[i];
        let ghost rest = hits.skip(i as int);
        assert(rest[0] == id);
        if id >= metadata.len() {
            return Err(QueryError::InconsistentDocId(id));
        }
        assert(rest.drop_first() =~= hits.skip(i + 1));
        let ghost o = views(out@);
        let p = metadata[id].clone();
        assert(p@ == metadata@[id as int]@);
        out.push(p);
        assert(views(out@) =~= o.push(p@));
        assert(hits.take(i + 1) =~= hits.take(i as int).push(id));
        assert(views(out@) =~= files_of(hits.take(i + 1), metadata@));
        i = i + 1;
    }
    proof {
        assert(hits.skip(k as int) =~= Seq::<usize>::empty());
        assert(hits.take(k as int) =~= hits);
    }
    Ok(out)
}

/// Each text truncated, followed by the separator, all in order.
pub open spec fn context_of(contents: Seq<Seq<char>>, max_chars: nat) -> Seq<char>
    decreases contents.len(),
{
    if contents.len() == 0 {
        Seq::empty()
    } else {
        let c = contents.last();
        let t = if c.len() <= max_chars {
            c
        } else {
            c.take(max_chars as int)
        };
        context_of(contents.drop_last(), max_chars) + t + CONTEXT_SEPARATOR@
    }
}

/// Joins the retrieved files' texts, each cut to `max_chars` characters and
/// followed by a blank line.
pub fn build_context(contents: &Vec<String>, max_chars: usize) -> (r: String)
    ensures
        r@ == context_of(views(contents@), max_chars as nat),
{
    let mut out = String::new();
    let mut i: usize = 0;
    assert(views(contents@).take(0) =~= Seq::<Seq<char>>::empty());
    while i < contents.len()
        invariant
            i <= contents.len(),
            out@ == context_of(views(contents@).take(i as int), max_chars as nat),
        decreases contents.len() - i,
    {
        let t = truncate_content(contents[i].as_str(), max_chars);
        push_all(&mut out, t.as_str());
        push_all(&mut out, CONTEXT_SEPARATOR);
        let ghost v = views(contents@);
        assert(v.take(i + 1).drop_last() =~= v.take(i as int));
        assert(v.take(i + 1).last() == contents@[i as int]@);
        i = i + 1;
    }
    assert(views(contents@).take(i as int) =~= views(contents@));
    out
}

/// The message sent to the chat service: context, a blank line, question.
pub fn chat_prompt(context: &str, query: &str) -> (r: String)
    ensures
        r@ == context@ + CONTEXT_SEPARATOR@ + query@,
{
    let mut out = String::new();
    push_all(&mut out, context);
    push_all(&mut out, CONTEXT_SEPARATOR);
    push_all(&mut out, query);
    out
}

/// Accepts the chat service's text when there is some.
pub fn extract_answer(content: Option<String>) -> (r: Result<String, QueryError>)
    ensures
        match content {
            Some(s) => if s@.len() > 0 {
                r is Ok && r->Ok_0@ == s@
            } else {
                r == Err::<String, QueryError>(QueryError::EmptyResponse)
            },
            None => r == Err::<String, QueryError>(QueryError::EmptyResponse),
        },
{
    match content {
        Some(s) => {
            if s.as_str().unicode_len() > 0 {
                Ok(s)
            } else {
                Err(QueryError::EmptyResponse)
            }
        },
        None => Err(QueryError::EmptyResponse),
    }
}

/// The result of a query whose answer and context files are known.
pub fn query_result(response: String, context_files: Vec<String>) -> (r: QueryResult)
    ensures
        r.response@ == response@,
        r.context_files@ == context_files@,
        r.num_context_docs == context_files.len(),
{
    let n = context_files.len();
    QueryResult { response, context_files, num_context_docs: n }
}

} // verus!
