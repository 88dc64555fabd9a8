use deeptracking::context::{ServiceContext, ServiceSettings};
use deeptracking::modality::{AudioAnalyzerConfig, AudioBaseAnalyzer};
use deeptracking::store::{top_k, IndexConfig, IndexMetadata, ScoredId, StoreError, VectorIndex};

fn meta(path: &str) -> IndexMetadata {
    IndexMetadata { id: 99, path: path.to_string(), modality: "code".to_string(), attributes: vec![] }
}

fn sid(id: usize, score: i64) -> ScoredId {
    ScoredId { id, score }
}

#[test]
fn ids_are_dense_and_in_insertion_order() {
    let mut ix: VectorIndex<Vec<f32>> =
        VectorIndex::new(IndexConfig { num_trees: 10, max_items_per_node: 100, search_k: 50 });
    assert_eq!(ix.add(vec![1.0], meta("a")), Ok(0));
    assert_eq!(ix.add(vec![2.0], meta("b")), Ok(1));
    assert_eq!(ix.len(), 2);
    assert_eq!(ix.metadata(1).unwrap().id, 1);
    assert_eq!(ix.metadata(1).unwrap().path, "b");
    assert_eq!(ix.vector(0), Some(&vec![1.0]));
    assert!(ix.metadata(2).is_none());
}

#[test]
fn search_is_non_increasing_and_truncated() {
    let mut ix: VectorIndex<u8> = VectorIndex::new(IndexConfig { num_trees: 1, max_items_per_node: 1, search_k: 1 });
    for i in 0..4u8 {
        ix.add(i, meta("x")).unwrap();
    }
    let r = ix.search(&vec![5, 9, -3, 7], 2).unwrap();
    assert_eq!(r, vec![sid(1, 9), sid(3, 7)]);
}

#[test]
fn search_with_k_beyond_corpus_returns_all_sorted() {
    let r = top_k(vec![sid(0, 1), sid(1, 3), sid(2, 2)], 10);
    assert_eq!(r, vec![sid(1, 3), sid(2, 2), sid(0, 1)]);
}

#[test]
fn ties_keep_insertion_order() {
    let r = top_k(vec![sid(0, 4), sid(1, 4), sid(2, 5)], 3);
    assert_eq!(r, vec![sid(2, 5), sid(0, 4), sid(1, 4)]);
}

#[test]
fn empty_and_zero_k() {
    assert!(top_k(vec![], 3).is_empty());
    assert!(top_k(vec![sid(0, 1)], 0).is_empty());
}

#[test]
fn mismatched_scores_are_an_invalid_query() {
    let ix: VectorIndex<u8> = VectorIndex::new(IndexConfig { num_trees: 1, max_items_per_node: 1, search_k: 1 });
    assert!(matches!(ix.search(&vec![1], 1), Err(StoreError::Index(_))));
}

#[test]
fn service_context_defaults_and_builders() {
    let c = ServiceContext::default();
    assert_eq!(c.get_chunk_size(), 1024);
    assert_eq!(c.get_chunk_overlap(), 128);
    assert_eq!(c.get_similarity_top_k(), 5);
    assert_eq!(c.get_embedding_dimension(), 384);
    let c = c.with_chunk_size(256).with_chunk_overlap(32);
    assert_eq!(c.get_chunk_size(), 256);
    assert_eq!(c.get_chunk_overlap(), 32);
    let c = ServiceContext::new(ServiceSettings {
        chunk_size: 1,
        chunk_overlap: 0,
        similarity_top_k: 2,
        embedding_dimension: 3,
    });
    assert_eq!(c.get_embedding_dimension(), 3);
}

#[test]
fn audio_analyzer_keeps_config() {
    let cfg = AudioAnalyzerConfig { sample_rate: 16000, window_size: 512, hop_length: 256, n_mels: 64 };
    assert_eq!(AudioBaseAnalyzer::new(cfg).config(), cfg);
}
