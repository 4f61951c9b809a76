pub mod seqs;
pub mod text;
pub mod workflow;
pub mod dag;
pub mod state;
pub mod store;
pub mod runner;
pub mod scheduler;
pub mod report;
pub mod host;
pub mod mcp;
pub mod wit;
pub mod guests;
pub mod stages;
