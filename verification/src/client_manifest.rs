//! Client reference ids for `"use client"` exports.
pub use crate::ids::client_reference_id;
