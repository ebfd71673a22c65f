//! The verified core of a two-player arena shooter.
//!
//! Two things are decided here. One is how state is kept in step between the
//! players: the record that stands for a participant and its form on the
//! wire (`player`, `wire`), what the relay does with every read on a
//! connection and to whom it forwards an update (`server`), and what a client
//! sends and applies each tick (`client`). The other is what an impact does:
//! which projectiles a scan removes, what the hits take from the defender's
//! health, which health indicator follows, and how a participant is kept out
//! of the walls (`colliders`, `player`).
//!
//! Sockets, threads, the clock and all arithmetic on coordinates belong to the
//! program around this library. Coordinates and angles pass through as the
//! bit patterns of single-precision numbers; the outcomes of geometric tests
//! come in as flags.

pub mod client;
pub mod colliders;
pub mod player;
pub mod server;
pub mod text;
pub mod wire;
