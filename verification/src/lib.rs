//! Decryption and container rewriting for AAX / AAXC audio books.
//!
//! The crate works on in-memory byte streams. Every executable function is
//! verified against a mathematical description of what it reads and writes.
//! AES, SHA-1, hexadecimal text and big-endian integers come from other
//! crates, called through a handful of small wrappers whose contracts are
//! assumed; each says in its comment what it assumes.
//!
//! - `adrm_key_derivation` recovers key and vector of an AAX file from the
//!   activation secret,
//! - `atom` reads and writes box headers,
//! - `decrypt` turns an encrypted container into a plain one in one pass,
//! - `mp4_editor` moves the metadata box ahead of the sample data, and
//!   `relocation_laws` says what holds of doing so,
//! - `download` picks the way to the key by the format of the file,
//! - `cue`, `converter` and `mpeg_util` prepare what the transcoding stage
//!   is told.

pub mod adrm_key_derivation;
pub mod atom;
pub mod converter;
pub mod crypto;
pub mod cue;
pub mod decrypt;
pub mod download;
pub mod endian;
pub mod error;
pub mod hexcode;
pub mod mp4_editor;
pub mod mpeg_util;
pub mod relocation_laws;
pub mod stream;
pub mod tags;

pub use crate::adrm_key_derivation::{derive_key_iv, DerivationError};
pub use crate::atom::{AavdAtom, Atom};
pub use crate::cue::create_cue_sheet;
pub use crate::decrypt::process_file;
pub use crate::download::{AaxcDownloadConvertBase, DownloadOptions, FileType, KeyData};
pub use crate::error::{Error, HexError};
pub use crate::mp4_editor::move_moov_to_beginning;
pub use crate::mpeg_util::{configure_lame_options, Chapter, ChapterInfo};
pub use crate::stream::ByteStream;
pub use crate::tags::{AppleListBox, AppleTags, Mp4File};
