//! Desktop snapshot library: the data model of desktop items and layouts,
//! snapshot comparison, snapshot store bookkeeping and the decisions of the
//! backup and restore procedures.

pub mod text;
pub mod desktop;
pub mod storage;
pub mod platform;
pub mod environment;
pub mod commands;
pub mod scan;
pub mod capture;
pub mod session;
pub mod images;
pub mod laws;
