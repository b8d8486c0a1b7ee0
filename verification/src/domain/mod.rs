//! The records that the library keeps, and the errors it reports.

pub mod error;
pub mod pool;
pub mod stack;

pub use error::{ExitCode, StackError};
pub use pool::{Pool, PoolBranch, PoolFile, PoolPullRequest};

pub use stack::{
    Branch, PullRequest, Stack, StackFile, SubmitAction, SubmitPlanItem, Trunk, Worktree,
    WorktreeStatus, SCHEMA_VERSION,
};
