//! Telemetry decoding, storage, capture and view logic for btelem devices.
//!
//! The crate holds the part of the viewer that decides and computes: the wire
//! decoder, the ring of captured packets and its file format, the sample store
//! and its queries, the mapping from wire entries to channels, and the state of
//! the plots, markers, filters and layouts that a user interface draws.

pub mod bytes;
pub mod text;
pub mod num;
pub mod numtext;

pub mod wire;
pub mod schema;
pub mod wire_laws;
pub mod value;
pub mod store;
pub mod store_laws;
pub mod num_laws;
pub mod mapper;
pub mod mapper_laws;
pub mod capture;
pub mod btlm;
pub mod clock;
pub mod connection;
pub mod text_laws;
pub mod ingest;
pub mod ingest_laws;

pub mod panels;
pub mod grouping;
pub mod selection;
pub mod tree;
pub mod drops;
pub mod drop_laws;
pub mod markers;
pub mod marker_laws;
pub mod pointer;
pub mod camera;
pub mod keys;
pub mod ui_laws;
pub mod rate;
pub mod colours;
pub mod signals;
pub mod lanes;
pub mod plot_laws;
pub mod logview;
pub mod log_laws;
pub mod logpanel;
pub mod filter_laws;
pub mod layout;
pub mod layout_save;
pub mod layout_apply;
pub mod layout_laws;
pub mod docks;
pub mod workspace;
pub mod restore_laws;
pub mod save_laws;
