//! Dependency resolution and lockfile management for JVM projects that
//! consume artifacts from Maven-style repositories.
pub mod text;
pub mod version;
pub mod coordinates;
pub mod lockfile;
pub mod prune;
pub mod repository;
pub mod table;
pub mod resolver;
pub mod digest;
pub mod registry;
pub mod manifest;
pub mod projects;
pub mod classpath;
pub mod init;
pub mod run;
