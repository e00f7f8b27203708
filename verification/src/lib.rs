//! An in-memory vector collection store: collections of points with
//! key/value payloads, upserts keyed by point id, and ranking of the
//! nearest-neighbour candidates returned by a similarity index.

pub mod collection;
pub mod dist;
pub mod payload;
pub mod index;
pub mod point;
pub mod query;
pub mod rank;
pub mod store;
pub mod views;

pub use crate::dist::Cosine;
pub use crate::payload::{match_payload, Payload};
pub use crate::point::{Point, PointView};
pub use crate::query::{Query, QueryResult, QueryResultView, QueryView};
pub use crate::collection::{Collection, CollectionView, PointId};
pub use crate::index::Index;
pub use crate::store::{ScrollError, Twellik, UpsertError};
