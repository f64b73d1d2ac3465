//! Coordinator for the rounds of a threshold ECDSA ceremony: it collects
//! each device's per-round output, relays it to the other devices, and
//! surfaces the group key or the signature once the last round lands.

pub mod ceremony;
pub mod group;
pub mod keygen;
pub mod roster;
pub mod sign;
pub mod status;
pub mod task;
pub mod wire;

pub use group::{Group, ProtocolType};
pub use status::{TaskError, TaskStatus, TaskType};
pub use keygen::GG18Group;
pub use sign::GG18Sign;
pub use task::Task;
