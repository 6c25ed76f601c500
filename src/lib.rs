//! Timestamp reconciliation: durable bindings between a source's progress
//! domain and an internal logical time, minted under optimistic concurrency.
pub mod antichain;
pub mod cast_context;
pub mod catalog_item_id;
pub mod consolidation;
pub mod future_updates;
pub mod laws;
pub mod mutable_antichain;
pub mod order;
pub mod partitioned;
pub mod reclock;
pub mod remap;
pub mod supported_version;

pub use antichain::Antichain;
pub use cast_context::CastContext;
pub use catalog_item_id::{CatalogItemId, GlobalId, ParseIdError};
pub use consolidation::consolidate;
pub use future_updates::FutureUpdates;
pub use mutable_antichain::MutableAntichain;
pub use order::Timestamp;
pub use partitioned::{BoundKind, Interval, Partitioned, RangeBound};
pub use reclock::{ReclockBatch, ReclockOperator};
pub use remap::RemapLog;
pub use supported_version::{SupportedVersion, UnexpectedVersion};
