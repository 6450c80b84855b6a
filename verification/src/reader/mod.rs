//! The reader's rules: highlights and notes on a document, and the account
//! state that the login and sign-up replies change.

pub mod account;
pub mod document_format;
pub mod note_windows;
pub mod outline;
