//! A read-only view into a BackupPC pool: the hosts, their backups, the
//! shares and directories of each backup, and the content of the files, read
//! from the attribute files and the content-addressed pool that the backup
//! engine left on disk. Every function states in its contract what it
//! computes, and the contracts are proved.
pub mod attribute_file;
pub mod cache;
pub mod cli;
pub mod compress;
pub mod decode_attribut;
pub mod error;
pub mod filesystem;
pub mod hosts;
pub mod merge;
pub mod pool;
pub mod reader;
pub mod shares;
pub mod sorting;
pub mod stream;
pub mod text;
pub mod util;
pub mod view;
