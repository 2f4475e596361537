//! The engine behind gene, a local-first toolkit for chatting with, evaluating
//! and fine-tuning open language models.

pub mod chat;
pub mod clock;
pub mod commands;
pub mod config;
pub mod dataset;
pub mod doctor;
pub mod eval;
pub mod hash;
pub mod ids;
pub mod json;
pub mod llm;
pub mod model;
pub mod name_map;
pub mod numerals;
pub mod order;
pub mod persist;
pub mod provider;
pub mod render;
pub mod runs;
pub mod session;
pub mod sorting;
pub mod text;
pub mod tools;
pub mod train;
pub mod transcript;
