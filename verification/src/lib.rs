//! A verified core for a serverless peer-to-peer stack: node identity, wire
//! formats, routing, hole punching, verified synchronization and transfer.
pub mod addr;
pub mod blob;
pub mod blob_download;
pub mod bytes;
pub mod candidates;
pub mod congestion;
pub mod crypto;
pub mod dht;
pub mod dht_exchanges;
pub mod dht_history;
pub mod dht_laws;
pub mod digests;
pub mod discovery;
pub mod endpoint;
pub mod feed;
pub mod feed_window;
pub mod firewall;
pub mod frame;
pub mod id;
pub mod lan;
pub mod lists;
pub mod msg;
pub mod natbox;
pub mod noise;
pub mod noise_link;
pub mod plan;
pub mod punch;
pub mod record;
pub mod recovery;
pub mod rng;
pub mod routing;
pub mod serving;
pub mod sim;
pub mod subscribe;
pub mod swarm;
pub mod sync;
pub mod sync_msg;
pub mod transfer;
pub mod transfer_laws;
pub mod wire;
