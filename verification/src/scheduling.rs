//! Scheduling state kept on the local node.

pub mod local_resource_manager;
