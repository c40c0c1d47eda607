//! The core of a desktop file-sharing app: how received paths are made safe
//! and placed, how a transfer is cut into segments and spread over streams,
//! and what each end of a LAN connection does next.

pub mod arrival;
pub mod blocks;
pub mod join;
pub mod listing;
pub mod net;
pub mod number;
pub mod path;
pub mod plan;
pub mod receive;
pub mod send;
pub mod session;
pub mod settings;
pub mod sort;
pub mod state;
pub mod text;
pub mod token;
pub mod wire;
