//! The data model: collection settings, statistics, error values and the
//! small configuration types that travel with them.
use vstd::prelude::*;

verus! {

/// A vector's identifier: the 128 bits of a UUID.
pub type VectorId = u128;

/// On-wire element type of a collection's vectors.
#[derive(Debug, Clone, Copy, PartialEq, Eq, Structural)]
pub enum VectorType {
    Float32,
    Float16,
    Int8,
}

/// How nearness is measured; smaller is nearer for every metric.
#[derive(Debug, Clone, Copy, PartialEq, Eq, Structural)]
pub enum DistanceMetric {
    Cosine,
    Euclidean,
    DotProduct,
    Manhattan,
}

/// Wire code of a metric (1 to 4).
pub open spec fn metric_code_spec(m: DistanceMetric) -> i32 {
    match m {
        DistanceMetric::Cosine => 1,
        DistanceMetric::Euclidean => 2,
        DistanceMetric::DotProduct => 3,
        DistanceMetric::Manhattan => 4,
    }
}

/// Wire code of an element type (1 to 3).
pub open spec fn vector_type_code_spec(t: VectorType) -> i32 {
    match t {
        VectorType::Float32 => 1,
        VectorType::Float16 => 2,
        VectorType::Int8 => 3,
    }
}

pub proof fn lemma_metric_code_injective(a: DistanceMetric, b: DistanceMetric)
    ensures
        metric_code_spec(a) as u8 == metric_code_spec(b) as u8 ==> a == b,
{
}

pub proof fn lemma_vector_type_code_injective(a: VectorType, b: VectorType)
    ensures
        vector_type_code_spec(a) as u8 == vector_type_code_spec(b) as u8 ==> a == b,
{
}

impl DistanceMetric {
    pub fn to_code(&self) -> (r: i32)
        ensures
            r == metric_code_spec(*self),
    {
        match self {
            DistanceMetric::Cosine => 1,
            DistanceMetric::Euclidean => 2,
            DistanceMetric::DotProduct => 3,
            DistanceMetric::Manhattan => 4,
        }
    }

    /// Unknown codes fall back to `Cosine`.
    pub fn from_code(c: i32) -> (r: DistanceMetric)
        ensures
            1 <= c <= 4 ==> metric_code_spec(r) == c,
            !(1 <= c <= 4) ==> r == DistanceMetric::Cosine,
    {
        if c == 2 {
            DistanceMetric::Euclidean
        } else if c == 3 {
            DistanceMetric::DotProduct
        } else if c == 4 {
            DistanceMetric::Manhattan
        } else {
            DistanceMetric::Cosine
        }
    }
}

impl VectorType {
    pub fn to_code(&self) -> (r: i32)
        ensures
            r == vector_type_code_spec(*self),
    {
        match self {
            VectorType::Float32 => 1,
            VectorType::Float16 => 2,
            VectorType::Int8 => 3,
        }
    }

    /// Unknown codes fall back to `Float32`.
    pub fn from_code(c: i32) -> (r: VectorType)
        ensures
            1 <= c <= 3 ==> vector_type_code_spec(r) == c,
            !(1 <= c <= 3) ==> r == VectorType::Float32,
    {
        if c == 2 {
            VectorType::Float16
        } else if c == 3 {
            VectorType::Int8
        } else {
            VectorType::Float32
        }
    }
}

/// Settings of the graph index.
#[derive(Debug, Clone, Copy, PartialEq, Eq, Structural)]
pub struct IndexConfig {
    /// M: the per-node connection budget.
    pub max_connections: usize,
    pub ef_construction: usize,
    pub ef_search: usize,
    pub max_layer: usize,
}

impl Default for IndexConfig {
    fn default() -> (r: IndexConfig)
        ensures
            r.max_connections == 16,
            r.ef_construction == 200,
            r.ef_search == 50,
            r.max_layer == 16,
    {
        IndexConfig { max_connections: 16, ef_construction: 200, ef_search: 50, max_layer: 16 }
    }
}

/// A collection's fixed settings.
#[derive(Debug, Clone)]
pub struct CollectionConfig {
    pub name: String,
    pub dimension: usize,
    pub distance_metric: DistanceMetric,
    pub vector_type: VectorType,
    pub index_config: IndexConfig,
}

/// What a collection's settings are, with the name as characters.
pub struct ConfigModel {
    pub name: Seq<char>,
    pub dimension: usize,
    pub distance_metric: DistanceMetric,
    pub vector_type: VectorType,
    pub index_config: IndexConfig,
}

impl View for CollectionConfig {
    type V = ConfigModel;

    open spec fn view(&self) -> ConfigModel {
        ConfigModel {
            name: self.name@,
            dimension: self.dimension,
            distance_metric: self.distance_metric,
            vector_type: self.vector_type,
            index_config: self.index_config,
        }
    }
}

/// Derived statistics of a collection.
#[derive(Debug, Clone)]
pub struct CollectionStats {
    pub name: String,
    pub vector_count: usize,
    pub dimension: usize,
    pub index_size: usize,
    pub memory_usage: usize,
}

/// Error values of the engine.
#[derive(Debug, Clone)]
pub enum VectorDbError {
    CollectionNotFound { name: String },
    CollectionAlreadyExists { name: String },
    InvalidDimension { expected: usize, actual: usize },
    InvalidInput { message: String },
    NotFound { message: String },
    Configuration { message: String },
    Serialization { message: String },
    Io { message: String },
    StorageError { message: String },
    Corruption { message: String },
    Network { message: String },
    Internal { message: String },
}

/// Element type used by scalar quantization.
#[derive(Debug, Clone, Copy, PartialEq, Eq, Structural)]
pub enum ScalarType {
    Int8,
}

#[derive(Debug, Clone, Copy, PartialEq, Eq, Structural)]
pub struct ScalarQuantizationConfig {
    pub quantization_type: ScalarType,
    /// Keep the original vectors for rescoring.
    pub always_ram: bool,
}

#[derive(Debug, Clone, Copy, PartialEq, Eq, Structural)]
pub struct ProductQuantizationConfig {
    /// Number of sub-vectors; must divide the dimension.
    pub num_segments: usize,
    pub num_centroids: usize,
    pub compression: bool,
    pub always_ram: bool,
}

#[derive(Debug, Clone, Copy, PartialEq, Eq, Structural)]
pub struct BinaryQuantizationConfig {
    pub always_ram: bool,
}

/// Optional compression of stored vectors.
#[derive(Debug, Clone, Copy, PartialEq, Eq, Structural)]
pub enum QuantizationConfig {
    /// Vectors are kept as they are.
    Disabled,
    Scalar(ScalarQuantizationConfig),
    Product(ProductQuantizationConfig),
    Binary(BinaryQuantizationConfig),
}

#[derive(Debug, Clone, Copy, PartialEq, Eq, Structural)]
pub enum QuantizedDistanceType {
    Dot,
    Cosine,
    Euclidean,
}

/// The element type a scalar quantization uses when none is given.
pub fn default_scalar_type() -> (r: ScalarType)
    ensures
        r == ScalarType::Int8,
{
    ScalarType::Int8
}

/// The value of a flag that is on unless given.
pub fn default_true() -> (r: bool)
    ensures
        r,
{
    true
}

/// How positive and negative examples are combined by `recommend`.
#[derive(Debug, Clone, Copy, PartialEq, Eq, Structural)]
pub enum RecommendStrategy {
    AverageVector,
    BestScore,
}

impl Default for RecommendStrategy {
    fn default() -> (r: RecommendStrategy)
        ensures
            r == RecommendStrategy::AverageVector,
    {
        RecommendStrategy::AverageVector
    }
}

#[derive(Debug, Clone, Copy, PartialEq, Eq, Structural)]
pub struct CountResponse {
    pub count: usize,
}

/// The number of facet values returned when no limit is given.
pub fn default_facet_limit() -> (r: usize)
    ensures
        r == 10,
{
    10
}

/// How dense and sparse result lists are fused.
#[derive(Debug, Clone, Copy, PartialEq, Eq, Structural)]
pub enum FusionMethod {
    RelativeScoreFusion,
    ReciprocalRankFusion,
    DistributionBasedScoreFusion,
}

/// The fusion used when none is given.
pub fn default_fusion() -> (r: FusionMethod)
    ensures
        r == FusionMethod::RelativeScoreFusion,
{
    FusionMethod::RelativeScoreFusion
}

/// Liveness answer: the process is up.
#[derive(Debug, Clone, Copy, PartialEq, Eq, Structural)]
pub struct LivenessResponse {
    pub alive: bool,
    pub timestamp: u64,
}

} // verus!
