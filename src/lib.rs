pub mod edit;
pub mod pattern;
pub mod program;
pub mod system;
