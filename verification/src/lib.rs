//! The logic of a terminal chat client: a line editor, a command interpreter, attachments, and
//! the reading of a streamed reply.
pub mod cli;
pub mod editor;
pub mod input;
pub mod media;
pub mod model_cap;
pub mod ollama;
pub mod screen;
pub mod session;
pub mod terminal;
pub mod text;
