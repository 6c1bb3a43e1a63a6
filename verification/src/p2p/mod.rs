pub mod broadcast;
pub mod request;
pub mod task;

pub use broadcast::BroadcastData;
pub use request::{Request, Response};
