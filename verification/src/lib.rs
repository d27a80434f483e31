//! A shared-memory NVRAM store.

pub mod api;
pub mod cache;
pub mod calls;
pub mod clear;
pub mod coherence;
pub mod commit;
pub mod compaction;
pub mod consts;
pub mod disk;
pub mod durability;
pub mod edit;
pub mod get;
pub mod getall;
pub mod hash;
pub mod history;
pub mod image;
pub mod init;
pub mod laws;
pub mod locks;
pub mod model;
pub mod outcomes;
pub mod paths;
pub mod peek;
pub mod pointers;
pub mod preload;
pub mod promises;
pub mod sem;
pub mod seqlock;
pub mod shm;
pub mod sound;
pub mod store;
pub mod update;
pub mod window;
