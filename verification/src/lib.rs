//! Decoder and encoder for the Beast binary framing protocol used by
//! Mode-S/ADS-B surveillance receivers, together with proofs of its
//! round-trip, sequencing, escaping, suppression and truncation laws,
//! and a small parser for squawk-code numbers and number ranges.

pub mod decoder;
pub mod laws;
pub mod squawk;
