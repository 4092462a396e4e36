//! Verified core of a trading GUI: component lifecycle, service orchestration,
//! messaging filters, render queues, state snapshots, aggregated order book depth and
//! layout rules.

pub mod component;
pub mod text;
pub mod service;
pub mod json;
pub mod clock;
pub mod state;
pub mod assoc;
pub mod lifecycle;
pub mod messaging;
pub mod rendering;
pub mod routing;
pub mod health;
pub mod persistence;
pub mod layout;
pub mod perf;
pub mod widgets;
pub mod depth;
