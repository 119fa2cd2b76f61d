pub mod text;
pub mod numeric;
pub mod decimal;
pub mod target;
pub mod command;
pub mod effects;
pub mod parser;
pub mod named;
pub mod param;
pub mod profile;
pub mod fixture;
pub mod stores;
pub mod engine;
pub mod playback;
pub mod settings;
pub mod timing;
pub mod osc;
pub mod artnet;
pub mod heads;
pub mod web;
