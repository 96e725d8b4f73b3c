//! What the commands of the runner decide and say.
pub mod chunk;
pub mod dispatch;
pub mod mailbox;
pub mod names;
pub mod resume;
pub mod run;
pub mod start;
pub mod status;
pub mod tail;
pub mod tools;
