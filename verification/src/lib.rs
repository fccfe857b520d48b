//! `tok`: counting OpenAI (tiktoken) tokens in files, directories and text.

pub mod text;
pub mod numfmt;
pub mod paths;
pub mod encoding;
pub mod vocabulary;
pub mod count;
pub mod cli;
pub mod rows;
pub mod output;
pub mod input;
pub mod show;
