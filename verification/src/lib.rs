//! Parasitic estimation before detailed routing: which nets get an RC network, the network of
//! each one, and the SPEF text that carries it to a static timer.

pub mod text;
pub mod order;
pub mod table;
pub mod value;
pub mod db;
pub mod number;
pub mod number_laws;
pub mod args;
pub mod rc;
pub mod layer_rc;
pub mod wire_rc;
pub mod rc_trace;
pub mod placement;
pub mod network;
pub mod cuts;
pub mod steiner;
pub mod network_laws;
pub mod wiring_laws;
pub mod joint_laws;
pub mod segment_laws;
pub mod net_laws;
pub mod trace_laws;
pub mod command_laws;
pub mod wire_laws;
pub mod state_laws;
pub mod text_laws;
pub mod spef_laws;
pub mod spef;
pub mod cli;
pub mod job;
pub mod report;
pub mod session;
pub mod corner;
pub mod outcome_laws;
pub mod run_laws;
