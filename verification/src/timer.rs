//! Timers: the hierarchical wheel, its staged front end and the reactor's
//! adapter over both.
pub mod handle;
pub mod reactor_adapter;
pub mod staged_wheel;
pub mod timer_id;
pub mod timing_wheel;
