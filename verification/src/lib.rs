//! Security analysis of announced multi-agent path-finding schedules on a
//! four-connected grid: schedule validity and metrics, announcement
//! strategies, the time-expanded graph, and the bold and cautious attacker
//! analyses.

pub mod bold;
pub mod cautious;
pub mod cells;
pub mod experiments;
pub mod graph;
pub mod inputs;
pub mod order;
pub mod plan;
pub mod search;
pub mod table;
pub mod utils;
