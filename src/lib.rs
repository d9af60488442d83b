//! An arbitrary-precision signed decimal value (its unscaled integer) with a
//! big-endian two's-complement byte codec.

pub mod twos_complement;
pub mod decimal;
