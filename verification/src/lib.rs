//! A frame-stepped 2D world simulation: a sparse world of chunks, a store of
//! entities, and a per-frame simulation region with swept collision.
//!
//! Every length, speed and time is a fixed-point number: an `i64` that counts
//! millionths (see [`fixed::UNIT`]).

// Numbers and shapes.
pub mod fixed;
pub mod math;

// The world, the store, and the region that simulates a frame.
pub mod world;
pub mod entity;
pub mod collision;
pub mod motion;
pub mod ordered;
pub mod region;
pub mod consistency;

// The game: what the host hands in, what a frame does, what it shows.
pub mod host_api;
pub mod input;
pub mod update;
pub mod game;
pub mod render;
pub mod pieces;
pub mod bmp;
pub mod audio;

// Earlier forms of the map and of the host.
pub mod tile;
pub mod engine;
pub mod runner;
