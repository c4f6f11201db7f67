pub mod append;
pub mod argz;
pub mod compare;
pub mod copy;
pub mod dispatch;
pub mod dup;
pub mod envz;
pub mod errors;
pub mod glob;
pub mod matcher;
pub mod membrane;
pub mod memops;
pub mod memory;
pub mod order;
pub mod regex;
pub mod scan;
pub mod search;
pub mod sets;
pub mod signals;
pub mod span;
pub mod strfrom;
pub mod substr;
pub mod swar;
pub mod text;
pub mod tokens;
pub mod version;
