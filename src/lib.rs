//! Commit-activity reporting: which repositories saw the most commits since a
//! cutoff instant, with the drift of their working trees.
pub mod time;
pub mod walk;
pub mod report;
