pub mod hierarchy;
pub mod pipeline;
