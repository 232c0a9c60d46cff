pub mod branch;
pub mod branching;
pub mod checkout;
pub mod commit;
pub mod content_store;
pub mod digest;
pub mod encode;
pub mod error;
pub mod head;
pub mod ignore;
pub mod pathmap;
pub mod paths;
pub mod root;
pub mod staging_area;
pub mod strutil;
pub mod tracked_file;
pub mod worktree;
