//! Planning and decision logic for installing and managing .NET SDK versions.
pub mod text;
pub mod checksum;
pub mod install;
pub mod lines;
pub mod listing;
pub mod models;
pub mod order;
pub mod paths;
pub mod platform;
pub mod prompt;
pub mod prune;
pub mod search;
pub mod selfuninstall;
pub mod selfupdate;
pub mod sort;
pub mod update;
pub mod version;
