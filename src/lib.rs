//! A segregated free-list ("binned") memory allocator over a fixed address
//! range, with its alignment and layout arithmetic, and the logic of the
//! kernel's command shell; all of it verified.

pub mod bin;
pub mod layout;
pub mod shell;
pub mod usage;
pub mod util;
