//! Resource limits for a command and its descendants.
//!
//! The library decides: it reads the limits as they are written, keeps track of the command's
//! processes, and says what is to be done next to keep them within their limits. The program
//! around it does what is to be done, and hands back what came of it.
pub mod accuracy;
pub mod arithmetic;
mod bignat;
pub mod binary64;
pub mod controller;
pub mod duration;
pub mod exit;
pub mod format;
pub mod forwarding;
pub mod launch;
pub mod limits;
pub mod memory;
pub mod nice;
pub mod number;
pub mod platform;
pub mod process_tree;
pub mod quantities;
pub mod reading;
pub mod signals;
pub mod supervisor;
pub mod text;
pub mod throttle;
pub mod watch;

pub use crate::binary64::Binary64;
pub use crate::controller::Controller;
pub use crate::duration::Duration;
pub use crate::exit::{status_exit_code, ExitStatus};
pub use crate::format::format_bytes;
pub use crate::limits::{CpuLimit, HumanDuration, MemorySpec};
pub use crate::memory::{
    host_reserve_crossed, parse_linux_mem_available, parse_memory_pressure_available,
    resolve_memory_budget, MemoryBudget,
};
pub use crate::nice::{parse_nice_adjustment, NiceSetting};
pub use crate::platform::Platform;
pub use crate::process_tree::{ProcessIdentity, ProcessRecord, ProcessTree, Usage};
pub use crate::supervisor::{supervise, Supervisor};
pub use crate::throttle::CpuThrottle;
