//! Protocol cores of a sans-I/O WebRTC stack.

pub mod addr_map;
pub mod alert;
pub mod allocations;
pub mod annexb_scan;
pub mod arrival_time_map;
pub mod bitmap;
pub mod bits;
pub mod cc;
pub mod cipher_suite;
pub mod common;
pub mod conn;
pub mod conn_laws;
pub mod content;
pub mod crypto;
pub mod crypto_cbc;
pub mod crypto_ccm;
pub mod crypto_chacha20;
pub mod crypto_gcm;
pub mod endpoint;
pub mod endpoint_laws;
pub mod error;
pub mod fixtures;
pub mod fragment_buffer;
pub mod handshake_cache;
pub mod maps;
pub mod message;
pub mod nack_generator;
pub mod nack_responder;
pub mod ogg_crc;
pub mod pair;
pub mod peer;
pub mod provider;
pub mod random;
pub mod receive_log;
pub mod receiver_loss;
pub mod receiver_stream;
pub mod record;
pub mod record_cipher;
pub mod replay_detector;
pub mod rtcp;
pub mod rtp;
pub mod send_buffer;
pub mod seqnum;
pub mod stream_info;
pub mod test_blocks;
pub mod time;
pub mod transport;
pub mod xor;
