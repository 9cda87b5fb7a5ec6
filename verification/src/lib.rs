//! Package-manager and module-pool logic of the deka runtime: package
//! specifiers and versions, install bookkeeping, the `deka.*` catalog source
//! gate, and the island bundle linker.

pub mod text;
pub mod package_spec;
pub mod integrity;
pub mod pool_types;
pub mod catalog_scan;
pub mod paths;
pub mod stage;
pub mod versions;
pub mod islands;
pub mod install_rules;
pub mod project;
pub mod transforms;
pub mod releases;
pub mod recovery;
pub mod jsr;
pub mod scaffold;
pub mod summon_rules;
pub mod dsc_rules;
pub mod lockfile;
pub mod grants;
pub mod module_resolution;
pub mod worker_book;
pub mod handler_script;
pub mod loader_paths;
pub mod module_loading;
pub mod boot_gates;
pub mod install_queue;
pub mod install_recovery;
pub mod install_loop;
pub mod manifest;
