//! What keeps a cleaner from doing harm.

pub mod deleter;
pub mod journal;
pub mod protected;
pub mod whitelist;
