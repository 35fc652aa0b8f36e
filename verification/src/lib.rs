pub mod ack_pending;
pub mod ack_socket;
pub mod admission;
pub mod auth;
pub mod buffer;
pub mod buffers;
pub mod bytes;
pub mod cert_identity;
pub mod clock;
pub mod codec;
pub mod config;
pub mod crypto;
pub mod demand_window;
pub mod e2e;
pub mod error;
pub mod etsi;
pub mod flow_stats;
pub mod generator;
pub mod http;
pub mod ids;
pub mod ipc;
pub mod log_throttle;
pub mod names;
pub mod orr;
pub mod peer_client;
pub mod peers;
pub mod pem;
pub mod pending;
pub mod priority;
pub mod qrng_adapter;
pub mod sae_activity;
pub mod sae_binding;
pub mod scheduler;
pub mod security;
pub mod security_level;
pub mod service;
pub mod southbound;
pub mod table;
pub mod text;
pub mod tls;
pub mod tls_pqc;
pub mod tls_stats;
pub mod token_bucket;
pub mod unique;
