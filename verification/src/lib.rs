use vstd::prelude::*;

pub mod text;
pub mod dmem;
pub mod config;
pub mod cgroup;
pub mod status;
pub mod booster;
pub mod scope;

verus! {
}
