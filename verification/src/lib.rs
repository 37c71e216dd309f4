//! Golomb Compressed Sets: a static, disk-resident probabilistic
//! set-membership structure.
//!
//! A builder collects 64-bit hashes, reduces them modulo `n * p`, sorts and
//! deduplicates them, and Golomb–Rice-encodes the successive deltas into a
//! bit-packed payload followed by a sparse seek index and a fixed footer.  A
//! reader parses that container and answers membership queries with no false
//! negatives and a false-positive rate of about `1 / p`.

pub mod bitio;
pub mod laws;
pub mod gcs;
pub mod hashes;
pub mod model;
