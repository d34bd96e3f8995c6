pub mod address;
pub mod access;
pub mod request_manager;
pub mod hbm_context;
