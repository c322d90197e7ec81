//! Core of a shared picture-frame display service: a registry of picture
//! source URLs with a rotating current selection, a JSON codec for the
//! persisted configuration and the sensor readings file, and an on-demand
//! image fetch cache.

pub mod image_buffer;
pub mod json;
pub mod reject;
pub mod state;

pub use image_buffer::CacheEntry;
pub use image_buffer::CacheError;
pub use image_buffer::ImageBuffer;
pub use json::from_json;
pub use json::parse_th_combine;
pub use json::to_json;
pub use json::ConfigError;
pub use reject::to;
pub use reject::Rejection;
pub use state::Listing;
pub use state::Snapshot;
pub use state::State;
pub use state::ThCombine;
