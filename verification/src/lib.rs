pub mod cfg;
pub mod context;
pub mod counting;
pub mod deadlock;
pub mod kernel;
pub mod kvmap;
pub mod laws;
pub mod mfile;
pub mod mframe;
pub mod memory_set;
pub mod pte;
pub mod syscall;
pub mod vfs;
