//! Proximity-ranking and animated-rendering core for a fixed-length light
//! strip: a moving-average signal filter, a tracker that admits, decays and
//! evicts observed peers, a fair color pool, and a rank/transition/compositor
//! pipeline that turns a tracker snapshot into one RGB pixel buffer per tick.

pub mod ble_device_mgr;
pub mod color_alloc;
pub mod light_mgr;
pub mod light_state;
pub mod messages;
pub mod utils;

pub use utils::MovingAvg;
