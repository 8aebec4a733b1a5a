//! Process and task execution engine of a monolithic kernel: trap dispatch,
//! copy-on-write fault handling, the task lifecycle and the task registry,
//! stated over plain values and proved.

pub mod frame;
pub mod memset;
pub mod shell;
pub mod table;
pub mod task;
pub mod trap;
