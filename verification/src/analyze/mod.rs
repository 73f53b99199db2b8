//! Where the space on a disk went.

pub mod disk;
pub mod sizer;
pub mod trash;
