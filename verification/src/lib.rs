//! Road-network routing over a scene of vehicle nodes and links.
pub mod display;
pub mod network;
pub mod route;
pub mod scene;
pub mod search;
pub mod strmap;
