//! Splices compiled code into a fixed-layout binary image at the addresses
//! that a link table assigns to symbol names.

pub mod bytes;
pub mod compile;
pub mod hex;
pub mod link_table;
pub mod load;
pub mod mapping;
pub mod object_file;
pub mod patch;
pub mod patch_laws;
pub mod paths;
pub mod pipeline;
pub mod resolve;
pub mod resolve_laws;
pub mod round_trip;
pub mod symbol_table;
pub mod text;
pub mod unit;
