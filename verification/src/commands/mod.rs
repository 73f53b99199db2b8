//! What each command decides and says.

pub mod analyze;
pub mod clean;
pub mod history;
pub mod optimize;
pub mod purge;
pub mod selection;
pub mod shared;
pub mod status;
pub mod uninstall;
pub mod whitelist;
