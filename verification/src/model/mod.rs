//! The durable conversation model and the training examples made from it.

pub mod conversation;
pub mod dataset;

pub use conversation::{Conversation, Message, Role};
pub use dataset::{ChatMsg, Meta, TrainingExample};
