//! Inference of the physical location of fixed transit-line reporting points,
//! and of the directed topology connecting them, from two data streams:
//! timestamped radio telegrams emitted by vehicles passing a reporting point,
//! and GPS tracks recorded aboard vehicles.
//!
//! Neither stream alone carries a usable coordinate for a reporting point; the
//! engine fuses them by temporal proximity.  The crate is the correlation and
//! topology-inference engine only: it consumes and produces plain in-memory
//! values and performs no I/O.  Reading telegram files, parsing GPS tracks and
//! serializing the results are left to callers.
//!
//! Latitude and longitude are carried as fixed-point integers (a caller picks
//! the scale, e.g. microdegrees); timestamps are unix seconds.

pub mod correlate;
pub mod crayon;
pub mod filter;
pub mod gps;
pub mod stops;
pub mod structs;
pub mod types;
