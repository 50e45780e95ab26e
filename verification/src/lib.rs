//! Time-block calendar core: the data model of time blocks, projects and
//! categories, their validation rules, free-slot search and schedule
//! suggestion, dependency-cycle detection, the OAuth (PKCE) start of a
//! calendar login, and the decisions of calendar synchronisation.
//!
//! Instants are whole seconds since the Unix epoch (UTC) and calendar days are
//! day numbers counted from 1970-01-01.
pub mod text;
pub mod time;
pub mod validation;
pub mod dependency;
pub mod models;
pub mod services;
pub mod auth;
pub mod repository;
pub mod projects;
pub mod sync;
