use vstd::prelude::*;

pub mod hexfmt;
pub mod accum;
pub mod pathname;
pub mod record;
pub mod inventory;
pub mod walk;
