pub mod algorithms;
pub mod nodes;
pub mod record;
