//! Rarity, a Discord companion bot: the verified core. Text preparation for
//! Discord embeds, retrieval from a YAML knowledge base, prompt shaping for
//! a local language model, news feeds, conversation memory and message
//! routing.

pub mod text;
pub mod discord;
pub mod rag;
pub mod operations;
pub mod generation;
pub mod prompt;
pub mod news;
pub mod feed;
pub mod state;
pub mod options;
pub mod handler;
pub mod proxy;
pub mod imagine;
pub mod presence;
pub mod status;
