//! Partition planning for an OS installer: a model of a GUID partition table,
//! the free-space scan, the EFI system partition lookup, the layout planner for
//! dual-boot and fresh installs, and the committer that applies a plan.
pub mod catalog;
pub mod table;
pub mod scan;
pub mod esp;
pub mod plan;
pub mod commit;
