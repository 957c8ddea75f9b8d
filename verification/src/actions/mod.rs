//! The logic of the tools: what each decides and computes, apart from the
//! reading and writing that the transports do around it.

pub mod compress;
pub mod csv;
pub mod dirs;
pub mod edit;
pub mod files;
pub mod util;
