//! Ingestion decisions: which discovered paths are indexed, and how the
//! per-file results, which finish in any order, become index entries with
//! dense doc ids and an aligned metadata list.

use vstd::prelude::*;
use crate::text::{
    chars_of, lemma_run_until, lemma_run_until_is, run_until, runs, split_runs, string_of, text_eq,
    trim, trim_bounds, views,
};

verus! {

/// Characters read from each file for embedding.
pub const MAX_FILE_CHARS: usize = 800;

/// Token budget of one embedding request.
pub const MAX_EMBEDDING_TOKENS: usize = 600;

/// Largest number of neighbour links per node of the index.
pub const HNSW_MAX_CONNECTIONS: usize = 16;

/// Capacity the index is created with.
pub const HNSW_MAX_ELEMENTS: usize = 100_000;

/// Candidate-list size while the index is built.
pub const HNSW_EF_CONSTRUCTION: usize = 200;

/// Number of layers of the index.
pub const HNSW_MAX_LAYER: usize = 16;

/// Files between two progress reports.
pub const PROGRESS_INTERVAL: usize = 10;

/// Basename of the index files in the output directory.
pub const INDEX_BASENAME: &'static str = "index";

/// Name of the metadata file in the output directory.
pub const METADATA_FILE: &'static str = "meta.json";

/// Name of the output directory under the root.
pub const OUTPUT_DIR_NAME: &'static str = "data";

/// Settings of one ingestion run.
#[derive(Debug, Clone)]
pub struct IngestConfig {
    /// Directory the walk starts from.
    pub root_dir: String,
    /// Characters read per file.
    pub max_chars: usize,
    /// Token budget of one embedding request.
    pub max_tokens: usize,
    /// Files processed at once; `None` means the host's parallelism.
    pub max_concurrent_files: Option<usize>,
}

impl IngestConfig {
    /// A run over `root_dir` with the default limits.
    pub fn new(root_dir: &str) -> (r: IngestConfig)
        ensures
            r.root_dir@ == root_dir@,
            r.max_chars == MAX_FILE_CHARS,
            r.max_tokens == MAX_EMBEDDING_TOKENS,
            r.max_concurrent_files.is_none(),
    {
        IngestConfig {
            root_dir: root_dir.to_owned(),
            max_chars: MAX_FILE_CHARS,
            max_tokens: MAX_EMBEDDING_TOKENS,
            max_concurrent_files: None,
        }
    }
}

impl Default for IngestConfig {
    /// A run over the current directory with the default limits.
    fn default() -> (r: IngestConfig)
        ensures
            r.root_dir@ == "."@,
            r.max_chars == MAX_FILE_CHARS,
            r.max_tokens == MAX_EMBEDDING_TOKENS,
            r.max_concurrent_files.is_none(),
    {
        IngestConfig::new(".")
    }
}

/// Summary of one ingestion run.
#[derive(Debug, Clone)]
pub struct IngestStats {
    /// Files whose chunks were all embedded.
    pub files_processed: usize,
    /// Paths left out by the filters, and files that failed.
    pub files_skipped: usize,
    /// Directory the index and metadata were written to.
    pub output_dir: String,
}

/// The components of a `/`-separated path, empty ones dropped.
pub open spec fn components(s: Seq<char>) -> Seq<Seq<char>> {
    runs(s, '/')
}

/// The components of `path`.
pub fn path_components(path: &str) -> (r: Vec<String>)
    ensures
        views(r@) == components(path@),
{
    split_runs(path, '/')
}

/// Directories (and a few files) left out of the walk: version control,
/// virtual environments, editor settings, dependencies and build output.
pub open spec fn skip_list() -> Seq<Seq<char>> {
    seq![
        ".git"@,
        ".venv"@,
        ".cargo"@,
        ".github"@,
        ".vscode"@,
        "target"@,
        "node_modules"@,
        "build"@,
        "dist"@,
        "docs/api"@,
        "rust_ingest/target"@,
        "rust_ingest/Cargo.lock"@,
    ]
}

/// The entries of the skip list.
pub fn skip_dirs() -> (r: Vec<&'static str>)
    ensures
        r@.map_values(|s: &'static str| s@) == skip_list(),
{
    let r = vec![
        ".git",
        ".venv",
        ".cargo",
        ".github",
        ".vscode",
        "target",
        "node_modules",
        "build",
        "dist",
        "docs/api",
        "rust_ingest/target",
        "rust_ingest/Cargo.lock",
    ];
    assert(r@.map_values(|s: &'static str| s@) =~= skip_list());
    r
}

/// Whether `needle` stands as a contiguous run inside `hay`.
pub open spec fn has_run(hay: Seq<Seq<char>>, needle: Seq<Seq<char>>) -> bool {
    exists|i: int|
        0 <= i && i + needle.len() <= hay.len() && #[trigger] hay.subrange(i, i + needle.len())
            == needle
}

/// A path is skipped when the components of a skip-list entry appear in it,
/// in order and adjacent, at any depth.
pub open spec fn skipped(path: Seq<char>) -> bool {
    exists|k: int|
        0 <= k < skip_list().len() && has_run(components(path), components(#[trigger] skip_list()[k]))
}

/// Whether `needle` runs inside `hay` at offset `i`.
fn run_at(hay: &Vec<String>, needle: &Vec<String>, i: usize) -> (r: bool)
    requires
        i + needle.len() <= hay.len(),
    ensures
        r == (views(hay@).subrange(i as int, i + needle.len()) == views(needle@)),
{
    let mut j: usize = 0;
    while j < needle.len()
        invariant
            j <= needle.len(),
            i + needle.len() <= hay.len(),
            forall|m: int| 0 <= m < j ==> hay@[i + m]@ == needle@[m]@,
        decreases needle.len() - j,
    {
        if hay[i + j] != needle[j] {
            assert(views(hay@).subrange(i as int, i + needle.len())[j as int] == hay@[i + j]@);
            return false;
        }
        j = j + 1;
    }
    assert(views(hay@).subrange(i as int, i + needle.len()) =~= views(needle@));
    true
}

/// Whether `needle` runs anywhere inside `hay`.
fn find_run(hay: &Vec<String>, needle: &Vec<String>) -> (r: bool)
    ensures
        r == has_run(views(hay@), views(needle@)),
{
    if needle.len() > hay.len() {
        return false;
    }
    let mut i: usize = 0;
    let last = hay.len() - needle.len();
    assert(views(needle@).len() == needle.len());
    loop
        invariant
            needle.len() <= hay.len(),
            last == hay.len() - needle.len(),
            i <= last,
            views(needle@).len() == needle.len(),
            forall|m: int|
                0 <= m < i ==> #[trigger] views(hay@).subrange(m, m + needle.len()) != views(
                    needle@,
                ),
        decreases last - i,
    {
        if run_at(hay, needle, i) {
            assert(views(hay@).subrange(i as int, i + views(needle@).len()) == views(needle@));
            return true;
        }
        if i == last {
            return false;
        }
        i = i + 1;
    }
}

/// Decides whether the walk leaves `path` out.
pub fn should_skip_path(path: &str) -> (r: bool)
    ensures
        r == skipped(path@),
{
    let parts = path_components(path);
    let dirs = skip_dirs();
    let mut k: usize = 0;
    while k < dirs.len()
        invariant
            k <= dirs.len(),
            dirs@.map_values(|s: &'static str| s@) == skip_list(),
            views(parts@) == components(path@),
            forall|m: int|
                0 <= m < k ==> !has_run(components(path@), components(#[trigger] skip_list()[m])),
        decreases dirs.len() - k,
    {
        let pattern = path_components(dirs[k]);
        assert(dirs@[k as int]@ == skip_list()[k as int]);
        if find_run(&parts, &pattern) {
            return true;
        }
        k = k + 1;
    }
    false
}


/// Index of the last `.` in `s`, or -1.
pub open spec fn last_dot(s: Seq<char>) -> int
    decreases s.len(),
{
    if s.len() == 0 {
        -1
    } else if s.last() == '.' {
        s.len() - 1
    } else {
        last_dot(s.drop_last())
    }
}

proof fn lemma_last_dot(s: Seq<char>)
    ensures
        -1 <= last_dot(s) < s.len(),
        last_dot(s) >= 0 ==> s[last_dot(s)] == '.',
        forall|m: int| last_dot(s) < m < s.len() ==> #[trigger] s[m] != '.',
    decreases s.len(),
{
    if s.len() > 0 && s.last() != '.' {
        lemma_last_dot(s.drop_last());
        assert forall|m: int| last_dot(s) < m < s.len() implies #[trigger] s[m] != '.' by {
            if m < s.len() - 1 {
                assert(s[m] == s.drop_last()[m]);
            }
        }
    }
}

/// The extension of a path, as `Path::extension` gives it: what follows the
/// last `.` of the last component, unless that `.` starts the component.
pub open spec fn extension(path: Seq<char>) -> Option<Seq<char>> {
    let cs = components(path);
    if cs.len() == 0 {
        None
    } else {
        let name = cs.last();
        let d = last_dot(name);
        if d <= 0 {
            None
        } else {
            Some(name.skip(d + 1))
        }
    }
}

/// The kinds of file that are indexed.
#[derive(Debug, Clone, Copy, PartialEq, Eq, Structural)]
pub enum FileKind {
    /// `.md`
    Markdown,
    /// `.json`: one object, or an array of objects.
    Json,
    /// `.jsonl`: one object per line.
    Jsonl,
}

/// The kind of file an extension names, if it is indexed.
pub open spec fn kind_of_extension(ext: Seq<char>) -> Option<FileKind> {
    if ext == "md"@ {
        Some(FileKind::Markdown)
    } else if ext == "json"@ {
        Some(FileKind::Json)
    } else if ext == "jsonl"@ {
        Some(FileKind::Jsonl)
    } else {
        None
    }
}

/// The kind of file `path` is, judged by its extension.
pub open spec fn kind_of_path(path: Seq<char>) -> Option<FileKind> {
    match extension(path) {
        Some(e) => kind_of_extension(e),
        None => None,
    }
}

/// The kind of file `path` is, if it is indexed at all.
pub fn file_kind(path: &str) -> (r: Option<FileKind>)
    ensures
        r == kind_of_path(path@),
{
    let parts = path_components(path);
    if parts.len() == 0 {
        return None;
    }
    let name = chars_of(parts[parts.len() - 1].as_str());
    assert(name@ == components(path@).last());
    let mut d = name.len();
    while d > 0 && name[d - 1] != '.'
        invariant
            d <= name.len(),
            forall|m: int| d <= m < name.len() ==> #[trigger] name@[m] != '.',
        decreases d,
    {
        d = d - 1;
    }
    proof {
        lemma_last_dot(name@);
        if d > 0 {
            assert(name@[d - 1] == '.');
        }
        assert(last_dot(name@) == d as int - 1);
    }
    if d <= 1 {
        return None;
    }
    let ext = string_of(&name, d, name.len());
    assert(ext@ == name@.skip(d as int));
    let e = ext.as_str();
    if text_eq(e, "md") {
        Some(FileKind::Markdown)
    } else if text_eq(e, "json") {
        Some(FileKind::Json)
    } else if text_eq(e, "jsonl") {
        Some(FileKind::Jsonl)
    } else {
        None
    }
}

/// Whether `path` has an extension that is indexed (Markdown, JSON, JSONL).
pub fn is_supported_file(path: &str) -> (r: bool)
    ensures
        r == kind_of_path(path@).is_some(),
{
    file_kind(path).is_some()
}

/// The first `max_chars` characters of `content` (all of it when shorter).
pub fn truncate_content(content: &str, max_chars: usize) -> (r: String)
    ensures
        content@.len() <= max_chars ==> r@ == content@,
        content@.len() > max_chars ==> r@ == content@.take(max_chars as int),
{
    let chars = chars_of(content);
    let end = if chars.len() <= max_chars {
        chars.len()
    } else {
        max_chars
    };
    let r = string_of(&chars, 0, end);
    assert(chars@.subrange(0, chars.len() as int) =~= chars@);
    r
}

/// What one file gave: its discovery number and the vectors of its chunks,
/// in chunk order.
pub struct FileOutcome<T> {
    /// Position of the file in discovery order.
    pub file_id: usize,
    /// One vector per chunk of the file.
    pub vectors: Vec<T>,
}

/// What the index receives: `entries[k]` is inserted under doc id `k`, and
/// `metadata[k]` is the path of the file it came from.
pub struct IndexPlan<T> {
    /// Vectors in doc-id order.
    pub entries: Vec<T>,
    /// File path of each doc id.
    pub metadata: Vec<String>,
}

/// The vectors of the first outcome for file `id`, or none.
pub open spec fn vectors_for<T>(outs: Seq<FileOutcome<T>>, id: int) -> Seq<T>
    decreases outs.len(),
{
    if outs.len() == 0 {
        Seq::empty()
    } else if outs[0].file_id == id {
        outs[0].vectors@
    } else {
        vectors_for(outs.drop_first(), id)
    }
}

/// Vectors of files `0..n`, file by file in discovery order.
pub open spec fn planned_entries<T>(outs: Seq<FileOutcome<T>>, n: nat) -> Seq<T>
    decreases n,
{
    if n == 0 {
        Seq::empty()
    } else {
        planned_entries(outs, (n - 1) as nat) + vectors_for(outs, n - 1)
    }
}

/// The path of each vector of files `0..n`, in the same order.
pub open spec fn planned_metadata<T>(paths: Seq<Seq<char>>, outs: Seq<FileOutcome<T>>, n: nat) -> Seq<
    Seq<char>,
>
    decreases n,
{
    if n == 0 {
        Seq::empty()
    } else {
        planned_metadata(paths, outs, (n - 1) as nat) + Seq::new(
            vectors_for(outs, n - 1).len(),
            |j: int| paths[n - 1],
        )
    }
}

/// No two outcomes name the same file, and each names a discovered file.
pub open spec fn outcomes_well_formed<T>(outs: Seq<FileOutcome<T>>, n: nat) -> bool {
    &&& forall|i: int| 0 <= i < outs.len() ==> #[trigger] outs[i].file_id < n
    &&& forall|i: int, j: int|
        0 <= i < j < outs.len() ==> #[trigger] outs[i].file_id != #[trigger] outs[j].file_id
}

proof fn lemma_vectors_for_remove<T>(outs: Seq<FileOutcome<T>>, i: int, id: int)
    requires
        0 <= i < outs.len(),
        outs[i].file_id != id,
    ensures
        vectors_for(outs.remove(i), id) == vectors_for(outs, id),
    decreases outs.len(),
{
    if i > 0 {
        assert(outs.remove(i).drop_first() =~= outs.drop_first().remove(i - 1));
        lemma_vectors_for_remove(outs.drop_first(), i - 1, id);
    } else {
        assert(outs.remove(0) =~= outs.drop_first());
    }
}

proof fn lemma_vectors_for_at<T>(outs: Seq<FileOutcome<T>>, i: int)
    requires
        0 <= i < outs.len(),
        forall|m: int| 0 <= m < i ==> #[trigger] outs[m].file_id != outs[i].file_id,
    ensures
        vectors_for(outs, outs[i].file_id as int) == outs[i].vectors@,
    decreases i,
{
    if i > 0 {
        let t = outs.drop_first();
        assert forall|m: int| 0 <= m < i - 1 implies #[trigger] t[m].file_id != t[i - 1].file_id by {
            assert(t[m] == outs[m + 1]);
        }
        lemma_vectors_for_at(t, i - 1);
    }
}

proof fn lemma_vectors_for_none<T>(outs: Seq<FileOutcome<T>>, id: int)
    requires
        forall|m: int| 0 <= m < outs.len() ==> #[trigger] outs[m].file_id != id,
    ensures
        vectors_for(outs, id) == Seq::<T>::empty(),
    decreases outs.len(),
{
    if outs.len() > 0 {
        let t = outs.drop_first();
        assert forall|m: int| 0 <= m < t.len() implies #[trigger] t[m].file_id != id by {
            assert(t[m] == outs[m + 1]);
        }
        lemma_vectors_for_none(t, id);
    }
}

/// Lays the per-file results out for the index: files in discovery order,
/// each file's vectors in chunk order, doc ids dense from 0, and the
/// metadata entry of each doc id the path of its file. The order in which
/// the outcomes arrived plays no part.
pub fn plan_index<T>(paths: &Vec<String>, outcomes: Vec<FileOutcome<T>>) -> (r: IndexPlan<T>)
    requires
        outcomes_well_formed(outcomes@, paths.len() as nat),
    ensures
        r.entries@ == planned_entries(outcomes@, paths.len() as nat),
        views(r.metadata@) == planned_metadata(views(paths@), outcomes@, paths.len() as nat),
{
    let ghost all = outcomes@;
    let mut pending = outcomes;
    let mut entries: Vec<T> = Vec::new();
    let mut metadata: Vec<String> = Vec::new();
    let mut id: usize = 0;
    assert(entries@ =~= planned_entries(all, 0));
    assert(views(metadata@) =~= planned_metadata(views(paths@), all, 0));
    while id < paths.len()
        invariant
            id <= paths.len(),
            outcomes_well_formed(all, paths.len() as nat),
            forall|i: int| 0 <= i < pending@.len() ==> #[trigger] pending@[i].file_id >= id,
            forall|i: int, j: int|
                0 <= i < j < pending@.len() ==> #[trigger] pending@[i].file_id
                    != #[trigger] pending@[j].file_id,
            forall|x: int| id <= x ==> vectors_for(pending@, x) == vectors_for(all, x),
            entries@ == planned_entries(all, id as nat),
            views(metadata@) == planned_metadata(views(paths@), all, id as nat),
        decreases paths.len() - id,
    {
        let mut k: usize = 0;
        while k < pending.len() && pending[k].file_id != id
            invariant
                k <= pending.len(),
                forall|m: int| 0 <= m < k ==> #[trigger] pending@[m].file_id != id,
            decreases pending.len() - k,
        {
            k = k + 1;
        }
        let ghost before_e = entries@;
        let ghost before_m = views(metadata@);
        let ghost mine = vectors_for(all, id as int);
        if k < pending.len() {
            proof {
                lemma_vectors_for_at(pending@, k as int);
            }
            let ghost old_pending = pending@;
            let out = pending.remove(k);
            proof {
                assert forall|x: int| id < x implies vectors_for(pending@, x) == vectors_for(all, x) by {
                    assert(old_pending[k as int].file_id == id);
                    lemma_vectors_for_remove(old_pending, k as int, x);
                }
                assert forall|i: int| 0 <= i < pending@.len() implies #[trigger] pending@[i].file_id
                    > id by {
                    if i < k {
                        assert(pending@[i] == old_pending[i]);
                    } else {
                        assert(pending@[i] == old_pending[i + 1]);
                        assert(old_pending[i + 1].file_id != old_pending[k as int].file_id);
                    }
                }
                assert forall|i: int, j: int|
                    0 <= i < j < pending@.len() implies #[trigger] pending@[i].file_id
                        != #[trigger] pending@[j].file_id by {
                    let oi = if i < k { i } else { i + 1 };
                    let oj = if j < k { j } else { j + 1 };
                    assert(pending@[i] == old_pending[oi]);
                    assert(pending@[j] == old_pending[oj]);
                }
            }
            let vectors = out.vectors;
            let count = vectors.len();
            let mut vs = vectors;
            entries.append(&mut vs);
            let mut c: usize = 0;
            while c < count
                invariant
                    c <= count,
                    id < paths.len(),
                    views(metadata@) == before_m + Seq::new(c as nat, |j: int| views(paths@)[id as int]),
                decreases count - c,
            {
                let p = paths[id].clone();
                assert(p@ == views(paths@)[id as int]);
                let ghost o = views(metadata@);
                metadata.push(p);
                assert(views(metadata@) =~= o.push(p@));
                assert(views(metadata@) =~= before_m + Seq::new((c + 1) as nat, |j: int| views(paths@)[id as int]));
                c = c + 1;
            }
            assert(entries@ =~= before_e + mine);
        } else {
            proof {
                lemma_vectors_for_none(pending@, id as int);
                assert forall|i: int| 0 <= i < pending@.len() implies #[trigger] pending@[i].file_id
                    > id by {}
            }
            assert(mine =~= Seq::<T>::empty());
            assert(entries@ =~= before_e + mine);
            assert(views(metadata@) =~= before_m + Seq::new(0, |j: int| views(paths@)[id as int]));
        }
        assert(views(metadata@) =~= planned_metadata(views(paths@), all, (id + 1) as nat));
        id = id + 1;
    }
    IndexPlan { entries, metadata }
}


/// The file that doc id `k` came from, among files `0..n`.
pub open spec fn doc_file<T>(outs: Seq<FileOutcome<T>>, n: nat, k: int) -> int
    decreases n,
{
    if n == 0 {
        0
    } else if k >= planned_entries(outs, (n - 1) as nat).len() {
        n - 1
    } else {
        doc_file(outs, (n - 1) as nat, k)
    }
}

/// Doc id `k` of files `0..n` is vector `k - off` of its file `f`, where
/// `off` counts the entries of the files discovered before `f`, and its
/// metadata entry is the path of `f`.
pub open spec fn aligned_at<T>(
    paths: Seq<Seq<char>>,
    outs: Seq<FileOutcome<T>>,
    n: nat,
    k: int,
) -> bool {
    let f = doc_file(outs, n, k);
    let off = planned_entries(outs, f as nat).len() as int;
    &&& 0 <= f < n
    &&& off <= k < off + vectors_for(outs, f).len()
    &&& planned_entries(outs, n)[k] == vectors_for(outs, f)[k - off]
    &&& planned_metadata(paths, outs, n)[k] == paths[f]
}

/// After a run, every committed entry has a metadata entry, and that entry
/// is the path of the file that produced the entry's vector.
pub proof fn lemma_doc_id_alignment<T>(paths: Seq<Seq<char>>, outs: Seq<FileOutcome<T>>, n: nat)
    requires
        n <= paths.len(),
    ensures
        planned_metadata(paths, outs, n).len() == planned_entries(outs, n).len(),
        forall|k: int|
            0 <= k < planned_entries(outs, n).len() ==> #[trigger] aligned_at(paths, outs, n, k),
    decreases n,
{
    if n > 0 {
        let m = (n - 1) as nat;
        lemma_doc_id_alignment(paths, outs, m);
        let pe = planned_entries(outs, n);
        let pm = planned_metadata(paths, outs, n);
        let base = planned_entries(outs, m).len();
        assert forall|k: int| 0 <= k < pe.len() implies #[trigger] aligned_at(paths, outs, n, k) by {
            if k < base {
                assert(aligned_at(paths, outs, m, k));
                assert(pe[k] == planned_entries(outs, m)[k]);
                assert(pm[k] == planned_metadata(paths, outs, m)[k]);
            } else {
                assert(pe[k] == vectors_for(outs, m as int)[k - base]);
                assert(pm[k] == paths[m as int]);
            }
        }
    }
}

proof fn lemma_same_vectors<T>(o1: Seq<FileOutcome<T>>, o2: Seq<FileOutcome<T>>, n: nat, id: int)
    requires
        outcomes_well_formed(o1, n),
        outcomes_well_formed(o2, n),
        forall|x: FileOutcome<T>| o1.contains(x) <==> o2.contains(x),
    ensures
        vectors_for(o1, id) == vectors_for(o2, id),
{
    if exists|i: int| 0 <= i < o1.len() && #[trigger] o1[i].file_id == id {
        let i = choose|i: int| 0 <= i < o1.len() && #[trigger] o1[i].file_id == id;
        assert(o1.contains(o1[i]));
        let i2 = choose|i2: int| 0 <= i2 < o2.len() && o2[i2] == o1[i];
        lemma_vectors_for_at(o1, i);
        lemma_vectors_for_at(o2, i2);
    } else {
        lemma_vectors_for_none(o1, id);
        assert forall|m: int| 0 <= m < o2.len() implies #[trigger] o2[m].file_id != id by {
            assert(o2.contains(o2[m]));
            let i = choose|i: int| 0 <= i < o1.len() && o1[i] == o2[m];
        }
        lemma_vectors_for_none(o2, id);
    }
}

/// Two runs whose files finished in different orders, but with the same
/// results, commit the same entries under the same doc ids with the same
/// metadata.
pub proof fn lemma_arrival_order_irrelevant<T>(
    paths: Seq<Seq<char>>,
    o1: Seq<FileOutcome<T>>,
    o2: Seq<FileOutcome<T>>,
    n: nat,
)
    requires
        outcomes_well_formed(o1, n),
        outcomes_well_formed(o2, n),
        forall|x: FileOutcome<T>| o1.contains(x) <==> o2.contains(x),
    ensures
        planned_entries(o1, n) == planned_entries(o2, n),
        planned_metadata(paths, o1, n) == planned_metadata(paths, o2, n),
{
    lemma_planned_prefix(paths, o1, o2, n, n);
}

proof fn lemma_planned_prefix<T>(
    paths: Seq<Seq<char>>,
    o1: Seq<FileOutcome<T>>,
    o2: Seq<FileOutcome<T>>,
    n: nat,
    m: nat,
)
    requires
        m <= n,
        outcomes_well_formed(o1, n),
        outcomes_well_formed(o2, n),
        forall|x: FileOutcome<T>| o1.contains(x) <==> o2.contains(x),
    ensures
        planned_entries(o1, m) == planned_entries(o2, m),
        planned_metadata(paths, o1, m) == planned_metadata(paths, o2, m),
    decreases m,
{
    if m > 0 {
        lemma_planned_prefix(paths, o1, o2, n, (m - 1) as nat);
        lemma_same_vectors(o1, o2, n, m - 1);
    }
}


/// Whether serde_json accepts `s` as one JSON value.
pub uninterp spec fn parses_as_json(s: Seq<char>) -> bool;

/// Relies on `serde_json::from_str::<serde_json::Value>`: whether the text
/// is one well-formed JSON value; the answer depends on the text alone.
#[verifier::external_body]
fn json_parses(s: &str) -> (r: bool)
    ensures
        r == parses_as_json(s@),
{
    serde_json::from_str::<serde_json::Value>(s).is_ok()
}

/// `l` without one trailing carriage return.
pub open spec fn strip_cr(l: Seq<char>) -> Seq<char> {
    if l.len() > 0 && l.last() == '\r' {
        l.drop_last()
    } else {
        l
    }
}

/// The lines of `s` as `str::lines` yields them: split at line feeds, a
/// final line feed ends the last line, and a trailing carriage return is
/// dropped from each line.
pub open spec fn lines_of(s: Seq<char>) -> Seq<Seq<char>>
    decreases s.len(),
    via lines_of_decreases
{
    if s.len() == 0 {
        Seq::empty()
    } else {
        let k = run_until(s, '\n') as int;
        if k >= s.len() {
            seq![strip_cr(s)]
        } else {
            seq![strip_cr(s.take(k))] + lines_of(s.skip(k + 1))
        }
    }
}

#[via_fn]
proof fn lines_of_decreases(s: Seq<char>) {
    lemma_run_until(s, '\n');
}

/// The lines of `s` that are not blank, in order.
pub open spec fn nonblank(lines: Seq<Seq<char>>) -> Seq<Seq<char>>
    decreases lines.len(),
{
    if lines.len() == 0 {
        Seq::empty()
    } else if trim(lines[0]).len() == 0 {
        nonblank(lines.drop_first())
    } else {
        seq![lines[0]] + nonblank(lines.drop_first())
    }
}

/// The lines of `content` that are not blank; in a JSONL file each is one
/// record.
pub fn nonblank_lines(content: &str) -> (r: Vec<String>)
    ensures
        views(r@) == nonblank(lines_of(content@)),
{
    let chars = chars_of(content);
    let n = chars.len();
    let mut out: Vec<String> = Vec::new();
    let mut p: usize = 0;
    assert(chars@.subrange(0, n as int) =~= content@);
    assert(views(out@) + nonblank(lines_of(content@)) =~= nonblank(lines_of(content@)));
    while p < n
        invariant
            p <= n == chars.len(),
            chars@ == content@,
            views(out@) + nonblank(lines_of(chars@.subrange(p as int, n as int))) == nonblank(
                lines_of(content@),
            ),
        decreases n - p,
    {
        let ghost rest = chars@.subrange(p as int, n as int);
        let mut j = p;
        while j < n && chars[j] != '\n'
            invariant
                p <= j <= n == chars.len(),
                forall|m: int| p <= m < j ==> #[trigger] chars@[m] != '\n',
            decreases n - j,
        {
            j = j + 1;
        }
        proof {
            assert forall|m: int| 0 <= m < j - p implies #[trigger] rest[m] != '\n' by {
                assert(rest[m] == chars@[p + m]);
            }
            if j < n {
                assert(rest[j - p] == chars@[j as int]);
            }
            lemma_run_until_is(rest, '\n', (j - p) as nat);
        }
        let mut e = j;
        if e > p && chars[e - 1] == '\r' {
            e = e - 1;
        }
        let ghost line = chars@.subrange(p as int, j as int);
        assert(chars@.subrange(p as int, e as int) =~= strip_cr(line));
        assert(rest.take(j - p) =~= line);
        let (a, b) = trim_bounds(&chars, p, e);
        let ghost before = views(out@);
        if a < b {
            out.push(string_of(&chars, p, e));
            assert(views(out@) =~= before + seq![strip_cr(line)]);
        } else {
            assert(views(out@) =~= before);
        }
        if j < n {
            assert(rest.skip(j - p + 1) =~= chars@.subrange(j + 1, n as int));
            let ghost ls = lines_of(rest);
            assert(ls =~= seq![strip_cr(line)] + lines_of(chars@.subrange(j + 1, n as int)));
            assert(ls[0] == strip_cr(line));
            assert(ls.drop_first() =~= lines_of(chars@.subrange(j + 1, n as int)));
            assert(views(out@) + nonblank(lines_of(chars@.subrange(j + 1, n as int))) =~= before
                + nonblank(lines_of(rest)));
            p = j + 1;
        } else {
            assert(rest =~= line);
            let ghost ls = lines_of(rest);
            assert(ls =~= seq![strip_cr(line)]);
            assert(ls[0] == strip_cr(line));
            assert(ls.drop_first() =~= Seq::<Seq<char>>::empty());
            assert(nonblank(ls.drop_first()) =~= Seq::<Seq<char>>::empty());
            assert(chars@.subrange(n as int, n as int) =~= Seq::<char>::empty());
            assert(views(out@) + nonblank(lines_of(chars@.subrange(n as int, n as int))) =~= before
                + nonblank(lines_of(rest)));
            p = n;
        }
    }
    assert(chars@.subrange(p as int, n as int) =~= Seq::<char>::empty());
    assert(views(out@) + Seq::<Seq<char>>::empty() =~= views(out@));
    out
}

/// Lines among `lines` that parse, and lines that do not.
pub open spec fn json_counts(lines: Seq<Seq<char>>) -> (nat, nat)
    decreases lines.len(),
{
    if lines.len() == 0 {
        (0, 0)
    } else {
        let (v, i) = json_counts(lines.drop_first());
        if parses_as_json(lines[0]) {
            (v + 1, i)
        } else {
            (v, i + 1)
        }
    }
}

/// Counts the non-blank lines of a JSONL text that are well-formed JSON
/// (first) and those that are not (second).
pub fn validate_jsonl_lines(content: &str) -> (r: (usize, usize))
    ensures
        r.0 as nat == json_counts(nonblank(lines_of(content@))).0,
        r.1 as nat == json_counts(nonblank(lines_of(content@))).1,
{
    let lines = nonblank_lines(content);
    let mut valid: usize = 0;
    let mut invalid: usize = 0;
    let mut i: usize = lines.len();
    let ghost v = views(lines@);
    assert(v.skip(i as int) =~= Seq::<Seq<char>>::empty());
    while i > 0
        invariant
            i <= lines.len(),
            v == views(lines@),
            valid as nat == json_counts(v.skip(i as int)).0,
            invalid as nat == json_counts(v.skip(i as int)).1,
            valid + invalid == lines.len() - i,
        decreases i,
    {
        i = i - 1;
        assert(v.skip(i as int).drop_first() =~= v.skip(i + 1));
        assert(v.skip(i as int)[0] == lines@[i as int]@);
        if json_parses(lines[i].as_str()) {
            valid = valid + 1;
        } else {
            invalid = invalid + 1;
        }
    }
    assert(v.skip(0) =~= v);
    (valid, invalid)
}

} // verus!
