//! Modalities, their analyzer configurations, query filters, and the errors
//! of the analysis, embedding and enhancement stages.
use vstd::prelude::*;

verus! {

/// The content type a store or generator is specialized for.
#[derive(Debug, Clone, Copy, PartialEq, Eq, Hash, Structural)]
pub enum ModalityType {
    Code,
    Image,
    Audio,
    Video,
}

/// The transformations that align embeddings across modalities.
#[derive(Debug, Clone, Copy, PartialEq, Eq, Structural)]
pub enum TransformationType {
    Normalization,
    Alignment,
    Projection,
    Fusion,
}

pub struct NormalizationTransform;

pub struct AlignmentTransform;

pub struct ProjectionTransform;

pub struct FusionTransform;

impl NormalizationTransform {
    pub fn new() -> (r: Self) {
        NormalizationTransform
    }
}

/// How thoroughly code is analyzed.
#[derive(Debug, Clone, Copy, PartialEq, Eq, Structural)]
pub enum AnalysisLevel {
    Basic,
    Detailed,
    Comprehensive,
}

#[derive(Debug, Clone, Copy, PartialEq, Eq, Structural)]
pub struct CodeAnalyzerConfig {
    pub max_depth: usize,
    pub include_tests: bool,
    pub analysis_level: AnalysisLevel,
}

/// A span of lines in a file.
#[derive(Debug, Clone)]
pub struct Location {
    pub file: String,
    pub start_line: u32,
    pub end_line: u32,
}

/// A module with its imports and exports.
#[derive(Debug, Clone)]
pub struct ModuleInfo {
    pub name: String,
    pub imports: Vec<String>,
    pub exports: Vec<String>,
    pub path: String,
}

#[derive(Debug, Clone, Copy, PartialEq, Eq, Structural)]
pub struct AudioAnalyzerConfig {
    pub sample_rate: u32,
    pub window_size: usize,
    pub hop_length: usize,
    pub n_mels: usize,
}

pub struct AudioBaseAnalyzer {
    config: AudioAnalyzerConfig,
}

impl AudioBaseAnalyzer {
    pub closed spec fn config_spec(&self) -> AudioAnalyzerConfig {
        self.config
    }

    pub fn new(config: AudioAnalyzerConfig) -> (r: Self)
        ensures
            r.config_spec() == config,
    {
        AudioBaseAnalyzer { config }
    }

    pub fn config(&self) -> (r: AudioAnalyzerConfig)
        ensures
            r == self.config_spec(),
    {
        self.config
    }
}

#[derive(Debug, Clone, Copy, PartialEq, Eq, Structural)]
pub struct SpectralConfig {
    pub window_size: usize,
    pub hop_size: usize,
    pub mel_bands: usize,
    pub mfcc_coeffs: usize,
}

#[derive(Debug, Clone, Copy, PartialEq, Eq, Structural)]
pub enum AudioContentType {
    Music,
    Speech,
    Ambient,
    Effects,
    Mixed,
}

#[derive(Debug, Clone, Copy, PartialEq, Eq, Structural)]
pub enum SceneType {
    Action,
    Dialogue,
    Establishing,
    Transition,
    Montage,
}

#[derive(Debug, Clone, Copy, PartialEq, Eq, Structural)]
pub enum MotionIntensity {
    Low,
    Medium,
    High,
    Dynamic,
}

/// A reading of what an image shows.
#[derive(Debug, Clone)]
pub struct SceneInterpretation {
    pub scene_type: String,
    pub setting: String,
    pub time_of_day: Option<String>,
    pub weather: Option<String>,
    pub mood: String,
    pub activities: Vec<String>,
}

/// Restrictions on a code search; `None` places no restriction.
#[derive(Debug, Clone)]
pub struct CodeQueryFilters {
    pub languages: Option<Vec<String>>,
    pub file_types: Option<Vec<String>>,
    pub relationship_types: Option<Vec<String>>,
}

/// A code search: query text and filters.
#[derive(Debug, Clone)]
pub struct CodeQuery {
    pub text: String,
    pub filters: CodeQueryFilters,
}

/// Restrictions on an image search; `None` places no restriction.
#[derive(Debug, Clone)]
pub struct ImageQueryFilters {
    pub content_types: Option<Vec<String>>,
    pub color_schemes: Option<Vec<String>>,
    pub composition_types: Option<Vec<String>>,
}

/// Errors of a per-modality analyzer.
#[derive(Debug, Clone, PartialEq, Eq)]
pub enum AnalysisError {
    InvalidFormat(String),
    AnalysisFailed(String),
    Io(String),
}

/// Errors of embedding generation; each is fatal to one item's indexing.
#[derive(Debug, Clone, PartialEq, Eq)]
pub enum EmbeddingError {
    GenerationFailed(String),
    InvalidInput(String),
    DimensionMismatch(String),
}

/// Errors of an enhancement step.
#[derive(Debug, Clone, PartialEq, Eq)]
pub enum EnhancementError {
    LLMError(String),
    InvalidAnalysis(String),
    ContextError(String),
}

} // verus!
