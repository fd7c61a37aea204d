//! Finds the plugin package responsible for a symptom by bisecting the set of
//! installed packages while keeping every enabled subset dependency-complete.

pub mod closure;
pub mod dependency_resolver;
pub mod descriptor;
pub mod document;
pub mod error;
pub mod formats;
pub mod mod_parser;
pub mod model;
pub mod round;
pub mod search;
pub mod selection;
pub mod text;
