//! Checksum manifests for directory trees: the manifest text format, resumable
//! generation and verification against a live tree.

pub mod checksum;
