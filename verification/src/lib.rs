//! Watches the traffic of networks: flows are counted per prefix, protocol category and
//! direction, rates are held against thresholds, and alerts come with suggested filter rules.

pub mod alert;
pub mod alert_laws;
pub mod candidate_laws;
pub mod config;
pub mod config_laws;
pub mod double;
pub mod evaluation_laws;
pub mod flow;
pub mod flow_laws;
pub mod maps;
pub mod mitigation;
pub mod mitigation_laws;
pub mod net;
pub mod net_laws;
pub mod output_laws;
pub mod prefix_table;
pub mod processor;
pub mod processor_laws;
pub mod prometheus;
pub mod reload_laws;
pub mod ring_buffer;
pub mod ring_buffer_laws;
pub mod round_laws;
pub mod rule_laws;
pub mod text;
pub mod time;
