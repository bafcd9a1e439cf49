//! A 128-bit geo-temporal identifier: latitude, longitude and a millisecond
//! timestamp are quantized, bit-interleaved and packed around fixed UUID
//! version/variant marker bits, so that identifiers sort by time first and
//! decode back to the coordinates with bounded quantization error.

pub mod bits;
pub mod codec;
pub mod quant;
pub mod sources;
pub mod text;

pub use codec::CodecError;
pub use codec::GeoTemporalUuid;
