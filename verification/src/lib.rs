//! Verified core of a display daemon and configurator for the Thermaltake
//! TH420 V2 LCD.

pub mod accuracy;
pub mod arith;
pub mod backdrop;
pub mod boot;
pub mod bytes;
pub mod cli;
pub mod color;
pub mod config;
pub mod desktop;
pub mod device;
pub mod device_page;
pub mod diagnostics;
pub mod display;
pub mod editor;
pub mod error;
pub mod fixed;
pub mod hidraw;
pub mod input;
pub mod jobs;
pub mod layout;
pub mod media;
pub mod media_page;
pub mod order;
pub mod paths;
pub mod profile;
pub mod profiles_page;
pub mod placement;
pub mod promises;
pub mod readings;
pub mod receiver;
pub mod renderer;
pub mod schedule;
pub mod sensors;
pub mod service_manager;
pub mod single;
pub mod storage;
pub mod table;
pub mod text;
