//! Pod placement: the event vocabulary, the plugin framework with its default
//! plugin set, preemption, the extender rules and the event-driven queue.

pub mod api;
pub mod cache;
pub mod config;
pub mod cycle;
pub mod dra;
pub mod events;
pub mod extender;
pub mod framework;
pub mod maps;
pub mod numbers;
pub mod preempt;
pub mod pvc_binding;
pub mod queue;
pub mod report;
pub mod text;
