//! A Gemini browser core: the gemtext parser, request preparation, and the
//! browsing state machine, with their contracts.

pub mod text;
pub mod gemtext;
pub mod request;
pub mod links;
pub mod browser;
pub mod layout;
