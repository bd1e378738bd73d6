//! Backend of an image-tagging desktop tool: listing the images of a folder,
//! turning an inference server's answer into tags, and probing that server.

pub mod text;
pub mod scan;
pub mod ollama;
