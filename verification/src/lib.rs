//! VocalSieve: suppress or enhance chosen voices in a live audio stream.

pub mod arithmetic;
pub mod cable;
pub mod channels;
pub mod devices;
pub mod feature_laws;
pub mod features;
pub mod framing;
pub mod gain_laws;
pub mod mode;
pub mod output;
pub mod processor;
pub mod reference;
pub mod resample;
pub mod rounding;
pub mod setup;
pub mod similarity_laws;
pub mod stream_laws;
pub mod target;
pub mod text;

