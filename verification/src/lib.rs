//! Verified core of a home proxy.

pub mod address_laws;
pub mod address_pools;
pub mod address_text;
pub mod addresses;
pub mod assoc;
pub mod auth;
pub mod bench;
pub mod book_text;
pub mod broker;
pub mod bytes;
pub mod client;
pub mod codec;
pub mod config;
pub mod crossing;
pub mod crypto;
pub mod dns;
pub mod endpoints;
pub mod guid;
pub mod label;
pub mod link_id;
pub mod multilink;
pub mod net;
pub mod number_laws;
pub mod paths;
pub mod pool;
pub mod port_utils;
pub mod punch;
pub mod relay;
pub mod rendezvous;
pub mod reorder;
pub mod seal;
pub mod server;
pub mod settings;
pub mod stun;
pub mod subnet;
pub mod sweep;
pub mod syslog;
pub mod text;
pub mod text_laws;
pub mod text_map;
pub mod text_sort;
pub mod tun;
pub mod varint;
pub mod vps;
pub mod wire;
pub mod xor;
