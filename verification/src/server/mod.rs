pub mod wsbonzoendpoint;

pub use wsbonzoendpoint::WsBonzoEndpoint;
pub mod state;
