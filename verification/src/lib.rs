//! Frame-aware CPU frequency scheduling.

pub mod answers;
pub mod averages;
pub mod binary64;
pub mod buffer;
pub mod clusters;
pub mod config;
pub mod control;
pub mod cpu_cycles_reader;
pub mod cpu_info;
pub mod demand;
pub mod exactness;
pub mod frames;
pub mod guarantees;
pub mod listings;
pub mod looper;
pub mod meaning;
pub mod nearness;
pub mod ordering;
pub mod params;
pub mod platform;
pub mod rounding;
pub mod scheduling;
pub mod smoothing;
pub mod sorting;
pub mod text;
pub mod tiers;
pub mod timing;
pub mod weighting;
