//! A render farm: splitting a job into shards of frames, placing the shards on ranked hosts, checking
//! some of them on a second host, and putting the outputs back in frame order.
//!
//! - [`shard`]: frame ranges and their division into shards.
//! - [`placement`]: ranking hosts and dealing shards to them.
//! - [`verify`]: which shards are checked, and what a check says.
//! - [`proto`]: the command that renders a shard.
//! - [`config`]: the description of a job.
//! - [`caps`]: the capability chain that hosts are shown.
//! - [`roots`]: the root keys that a host accepts.
//! - [`farm`]: the plan of a job and what a deployment asks for.
//! - [`dispatch`]: carrying out a plan.
//! - [`manifest`]: the result of a job.
//! - [`report`]: what is told to the user.
//! - [`fraction`], [`number`], [`order`], [`seqs`], [`text`]: what the others are made of.

pub mod caps;
pub mod config;
pub mod dispatch;
pub mod farm;
pub mod fraction;
pub mod manifest;
pub mod number;
pub mod order;
pub mod placement;
pub mod proto;
pub mod report;
pub mod roots;
pub mod seqs;
pub mod shard;
pub mod text;
pub mod verify;

pub use roots::load_roots;
