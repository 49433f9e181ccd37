//! Sessions: the builder that collects their settings.

pub mod builder;
