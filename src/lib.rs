//! Capture-and-sort engine for fixed-size datagrams that carry a big-endian 64-bit count in
//! their first eight bytes: payloads are sorted into fixed-size blocks by count, late reordering
//! is recovered through a bounded backlog, and missing counts are filled with drop markers.

pub mod bitmap;
pub mod block;
pub mod capture;
pub mod codec;

pub use bitmap::is_power_of_two;
pub use block::PayloadRecycle;
pub use capture::{check_recv_buffer, Capture, Error, Placement};
pub use codec::{count, drop_marker, COUNT_BYTES};
