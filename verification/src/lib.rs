//! A tracker of the changes that a command and its descendants make to files: what is to be
//! captured, when, and what the captures say in the end.
pub mod capture;
pub mod cli;
pub mod config;
pub mod contracts;
pub mod doctor;
pub mod finishing;
pub mod git_adapter;
pub mod handling;
pub mod linux;
pub mod order;
pub mod outside;
pub mod paths;
pub mod process;
pub mod report;
pub mod request;
pub mod supervisor;
pub mod text;

pub use doctor::{doctor, DoctorReport};
