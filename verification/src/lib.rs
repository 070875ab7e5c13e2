//! Declarative management of a WireGuard server: the configuration model,
//! the lock protocol that guards the configuration file, and the planner that
//! brings the peers of a live interface in line with the configuration.

pub mod decimal;
pub mod net;
pub mod peers;
pub mod reconcile;
pub mod sequences;
pub mod convergence;
pub mod utils;
pub mod wg;
pub mod manager;
