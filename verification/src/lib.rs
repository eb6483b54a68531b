//! Reading and rewriting the metadata of Opus audio carried in an Ogg container.
//!
//! [`ogg`] frames and checks single pages, and [`opus_tagger`] reads the
//! identification header and the comments that the first two pages carry and
//! writes a stream anew with other comments. [`stream`] says where bytes come
//! from, [`checksum`] defines the checksum that seals each page, [`error`]
//! names what can go wrong, and [`text`] writes the reasons of errors.

pub mod checksum;
pub mod error;
pub mod ogg;
pub mod opus_tagger;
pub mod stream;
pub mod text;
