pub mod error;
pub mod fetch;
pub mod pipeline;
pub mod planner;
pub mod reassemble;
