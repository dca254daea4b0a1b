//! Verified core of the askey terminal animation player and converter.

pub mod text;
pub mod models;
pub mod markup;
pub mod parser;
pub mod storage;
pub mod converter;
pub mod ui;
pub mod screen;
pub mod player;
pub mod catalog;
pub mod fidelity;
pub mod decode;
pub mod layout;
pub mod measure;
