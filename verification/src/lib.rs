//! Screen streaming server: the parts that need neither a compositor nor an encoder.
pub mod audio;
pub mod capture;
pub mod dlna;
pub mod hls;
pub mod hls_state;
pub mod http;
pub mod layout;
pub mod metrics;
pub mod numbers;
pub mod pipeline;
pub mod relay;
pub mod server;
pub mod ssdp;
pub mod streams;
pub mod text;
pub mod time;
pub mod watch_run;
pub mod windows;
