use hnsw_rs::anndists::dist::distances::DistCosine;
use hnsw_rs::api::AnnT;
use hnsw_rs::hnsw::Hnsw;
use hnsw_rs::hnswio::HnswIo;

use harald::ingest::{
    plan_index, FileOutcome, HNSW_EF_CONSTRUCTION, HNSW_MAX_CONNECTIONS, HNSW_MAX_ELEMENTS,
    HNSW_MAX_LAYER, INDEX_BASENAME,
};
use harald::query::{select_context_files, QueryError, SEARCH_EF};

fn unit(i: usize) -> Vec<f32> {
    let mut v = vec![0.05f32; 8];
    v[i % 8] = 1.0;
    v[(i + 3) % 8] = 0.5;
    v
}

fn new_index() -> Hnsw<'static, f32, DistCosine> {
    Hnsw::new(HNSW_MAX_CONNECTIONS, HNSW_MAX_ELEMENTS, HNSW_MAX_LAYER, HNSW_EF_CONSTRUCTION, DistCosine {})
}

#[test]
fn dumped_index_answers_like_the_original() {
    let paths: Vec<String> = (0..4).map(|i| format!("doc{i}.md")).collect();
    let outcomes: Vec<FileOutcome<Vec<f32>>> =
        (0..4).map(|i| FileOutcome { file_id: i, vectors: vec![unit(2 * i), unit(2 * i + 1)] }).collect();
    let plan = plan_index(&paths, outcomes);
    let index = new_index();
    for (doc_id, v) in plan.entries.iter().enumerate() {
        index.insert((v.as_slice(), doc_id));
    }
    let query = unit(5);
    let before = index.search(&query, 3, SEARCH_EF);

    let dir = tempfile::tempdir().unwrap();
    index.file_dump(dir.path(), INDEX_BASENAME).unwrap();
    let mut loader = HnswIo::new(dir.path(), INDEX_BASENAME);
    let reloaded: Hnsw<f32, DistCosine> = loader.load_hnsw().unwrap();
    let after = reloaded.search(&query, 3, SEARCH_EF);

    assert_eq!(before.len(), after.len());
    for (a, b) in before.iter().zip(after.iter()) {
        assert_eq!(a.d_id, b.d_id);
        assert!((a.distance - b.distance).abs() < 1e-5);
    }
    let ids: Vec<usize> = after.iter().map(|n| n.d_id).collect();
    let files = select_context_files(&ids, &plan.metadata, 3).unwrap();
    assert_eq!(files[0], "doc2.md");
}

#[test]
fn small_index_returns_what_it_holds() {
    let index = new_index();
    for i in 0..3 {
        index.insert((unit(i).as_slice(), i));
    }
    let hits = index.search(&unit(0), 5, SEARCH_EF);
    assert!(hits.len() <= 3 && !hits.is_empty());
    let metadata: Vec<String> = (0..3).map(|i| format!("f{i}.json")).collect();
    let ids: Vec<usize> = hits.iter().map(|n| n.d_id).collect();
    assert!(select_context_files(&ids, &metadata, 5).is_ok());
}

#[test]
fn empty_index_search_is_no_results() {
    let index = new_index();
    let hits = index.search(&unit(0), 3, SEARCH_EF);
    let ids: Vec<usize> = hits.iter().map(|n| n.d_id).collect();
    assert_eq!(select_context_files(&ids, &Vec::new(), 3), Err(QueryError::NoResults));
}
