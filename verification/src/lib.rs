//! Spatial indexing and body bookkeeping for an n-body particle simulation.
pub mod n_body;
