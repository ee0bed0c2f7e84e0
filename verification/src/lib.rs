//! A record-and-replay HTTPS proxy core: inventory model, content pipeline,
//! request/response pairing, and playback scheduling, with verified contracts.

pub mod beautify;
pub mod batch_processor;
pub mod bytetext;
pub mod codec;
pub mod playback;
pub mod processor;
pub mod recording;
pub mod signal;
pub mod traits;
pub mod transaction;
pub mod types;
pub mod utils;

