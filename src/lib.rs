//! An in-memory address book: contact records indexed by identifier, full
//! name and phone number, with a tab-separated text line format for storage.

pub mod address_book;
pub mod contact;
pub mod key_index;
pub mod tsv;

pub use address_book::{AddressBook, BookView};
pub use contact::{Contact, ContactView, ParseError};
