pub mod text;
pub mod models;
pub mod parser;
pub mod reader;
pub mod export;
pub mod ximera;
pub mod digest;
pub mod importer;
pub mod activities;
pub mod forms;
pub mod layout;
pub mod store;
