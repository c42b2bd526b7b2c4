//! Verified core of a small vector-search toolkit over a film corpus:
//! metric input checks, a deterministic hash embedder, payload filters,
//! rank fusion and score ordering, and an in-process film retrieval index.

pub mod metric;
pub mod embed;
pub mod filter;
pub mod rank;
pub mod fusion;
pub mod film;
pub mod pipeline;
pub mod corpus;

pub use corpus::default_corpus_path;
pub use embed::{EmbedError, HashEmbedder, DEFAULT_DIM};
pub use film::{Film, FilmHitRecord};
pub use filter::{FieldCondition, FilteredQuery};
pub use metric::MetricError;
pub use pipeline::{FilmRagPipeline, PipelineError};
