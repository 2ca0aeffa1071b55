//! Remote control for legacy Tizen Samsung TVs: the verified core.
//!
//! The modules hold what the command-line tool decides and computes: the
//! configuration file format and the websocket client name encoding
//! (`config`), key-code normalization (`keys`), the wake-on-LAN packet and its
//! destinations (`wol`), the remote-channel event mapping (`ws`) and the REST
//! retry policy (`rest`). Sockets, HTTP and the terminal live outside.
pub mod config;
pub mod keys;
pub mod rest;
pub mod text;
pub mod wol;
pub mod ws;
