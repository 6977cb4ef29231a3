//! goz: an instant file-name search for NTFS volumes.
//!
//! Everything that interprets bytes or decides something lives here. Names are
//! kept in WTF-8 ([`wtf8`]) and compared folded ([`fold`]). Change-journal
//! records ([`usn`]) and file-layout buffers ([`layout`]) fill the index of a
//! volume ([`index`]), which mirrors the files of the volume. Arguments
//! ([`escompat`]) and search text ([`query`]) become queries, results travel
//! in frames ([`proto`]) and are printed ([`output`]). What is asked of the
//! operating system and what its answers mean is in [`winfs`], how the server
//! fills its indexes in [`daemon`], and how a run of the client proceeds in
//! [`cli`].
//!
//! Each public function states what it returns, and the laws that tie several
//! functions together are public proof functions next to them, whose names
//! begin with `law_`.

pub mod buffers;
pub mod cli;
pub mod daemon;
pub mod escompat;
pub mod fold;
pub mod index;
pub mod layout;
pub mod le;
pub mod numbers;
pub mod output;
pub mod proto;
pub mod query;
pub mod text;
pub mod types;
pub mod usn;
pub mod winfs;
pub mod wtf8;
