pub mod analyze;
pub mod cargo;
pub mod cargo_dynamic;
pub mod config;
pub mod data;
pub mod ident;
pub mod license_guard;
pub mod lock_graph;
pub mod maven;
pub mod maven_cli;
pub mod merge;
pub mod model;
pub mod npm_dynamic;
pub mod npm_lock;
pub mod npm_manifest;
pub mod pattern;
pub mod pom;
pub mod position;
pub mod producer;
pub mod properties;
pub mod pypi;
pub mod pypi_dynamic;
pub mod report;
pub mod sbom;
pub mod text;
pub mod tokens;
