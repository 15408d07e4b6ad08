//! Verified core of a Kubernetes admission webhook that sets pod sysctls by merging
//! cluster defaults, namespace annotations and the pod's own settings.
pub mod name_order;
pub mod string_map;
pub mod json;
pub mod config;
pub mod webhook;
