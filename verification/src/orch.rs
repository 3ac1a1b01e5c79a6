//! Orchestrator rules: command registry, filesystem image naming and sizes,
//! run options, QEMU argument rewriting and tool paths.

pub mod text;
pub mod fs_image;
pub mod commands;
pub mod paths;
pub mod qemu;
pub mod util;
pub mod tools;
pub mod sorting;
pub mod scripts;
