//! Analytics core of a compressed-domain video pipeline: bounding-box
//! records and their wire format, the SORT tracker's bookkeeping, the
//! selective-decode scheduler and the track/detection aggregator.

pub mod bbox;
pub mod codec;
pub mod tracker;
pub mod sort;
pub mod client;
pub mod assoc;
pub mod scheduler;
pub mod dnn;
