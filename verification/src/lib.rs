//! A peer-to-peer file sharing node: chunking of files, parsing of the
//! node's configuration, the messages that nodes exchange and the decisions
//! that a node takes on each of them.

pub mod text;
pub mod bytes;
pub mod chunker;
pub mod file_utils;
pub mod chunk_creator;
pub mod address;
pub mod metadata_parser;
pub mod table;
pub mod descritor;
pub mod message;
pub mod node;
pub mod protocol;
pub mod request_answer;
