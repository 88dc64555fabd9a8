//! Chunking and retrieval settings shared by the indexing services, and the
//! storage layout of an index.
use vstd::prelude::*;

verus! {

/// Where an index keeps its parts.
#[derive(Debug, Clone)]
pub struct StorageSettings {
    pub index_path: String,
    pub vector_store_path: String,
    pub metadata_path: String,
}

/// Chunking, retrieval and embedding parameters.
#[derive(Debug, Clone, Copy, PartialEq, Eq)]
pub struct ServiceSettings {
    pub chunk_size: usize,
    pub chunk_overlap: usize,
    pub similarity_top_k: usize,
    pub embedding_dimension: usize,
}

/// The settings that indexing services consult.
#[derive(Debug, Clone, Copy)]
pub struct ServiceContext {
    chunk_size: usize,
    chunk_overlap: usize,
    settings: ServiceSettings,
}

impl ServiceContext {
    pub closed spec fn settings_spec(&self) -> ServiceSettings {
        self.settings
    }

    /// The chunk size and overlap agree with the settings.
    pub closed spec fn wf(&self) -> bool {
        self.chunk_size == self.settings.chunk_size && self.chunk_overlap == self.settings.chunk_overlap
    }

    /// A context over `settings`.
    pub fn new(settings: ServiceSettings) -> (r: Self)
        ensures
            r.wf(),
            r.settings_spec() == settings,
    {
        ServiceContext { chunk_size: settings.chunk_size, chunk_overlap: settings.chunk_overlap, settings }
    }

    /// Chunks of 1024 with an overlap of 128, the 5 best matches, 384 dimensions.
    pub fn default() -> (r: Self)
        ensures
            r.wf(),
            r.settings_spec() == (ServiceSettings {
                chunk_size: 1024,
                chunk_overlap: 128,
                similarity_top_k: 5,
                embedding_dimension: 384,
            }),
    {
        Self::new(ServiceSettings { chunk_size: 1024, chunk_overlap: 128, similarity_top_k: 5, embedding_dimension: 384 })
    }

    /// The same context with chunks of `chunk_size`.
    pub fn with_chunk_size(self, chunk_size: usize) -> (r: Self)
        requires
            self.wf(),
        ensures
            r.wf(),
            r.settings_spec() == (ServiceSettings { chunk_size, ..self.settings_spec() }),
    {
        let mut s = self;
        s.chunk_size = chunk_size;
        s.settings.chunk_size = chunk_size;
        s
    }

    /// The same context with an overlap of `chunk_overlap`.
    pub fn with_chunk_overlap(self, chunk_overlap: usize) -> (r: Self)
        requires
            self.wf(),
        ensures
            r.wf(),
            r.settings_spec() == (ServiceSettings { chunk_overlap, ..self.settings_spec() }),
    {
        let mut s = self;
        s.chunk_overlap = chunk_overlap;
        s.settings.chunk_overlap = chunk_overlap;
        s
    }

    pub fn get_chunk_size(&self) -> (r: usize)
        requires
            self.wf(),
        ensures
            r == self.settings_spec().chunk_size,
    {
        self.chunk_size
    }

    pub fn get_chunk_overlap(&self) -> (r: usize)
        requires
            self.wf(),
        ensures
            r == self.settings_spec().chunk_overlap,
    {
        self.chunk_overlap
    }

    pub fn get_similarity_top_k(&self) -> (r: usize)
        ensures
            r == self.settings_spec().similarity_top_k,
    {
        self.settings.similarity_top_k
    }

    pub fn get_embedding_dimension(&self) -> (r: usize)
        ensures
            r == self.settings_spec().embedding_dimension,
    {
        self.settings.embedding_dimension
    }
}

} // verus!
