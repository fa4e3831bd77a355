pub mod congestion_controller;
pub mod delivery;
pub mod fragment;
pub mod layer;
pub mod cache_laws;
pub mod retransmit_cache;
pub mod window;
