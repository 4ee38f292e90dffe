//! A copy-on-write object filesystem kept in a single container of 32-byte
//! slots, with verified contracts for the object store, the inode table,
//! transactions and the filesystem operations built on them.

pub mod clone;
pub mod cmds;
pub mod collector;
pub mod filesystem;
pub mod inode;
pub mod inode_changeset;
pub mod inode_id;
pub mod inodes;
pub mod object;
pub mod object_id;
pub mod object_rw;
pub mod objects;
pub mod result;
pub mod storage;
pub mod transaction;

pub use crate::clone::{CloneController, CloneView};
pub use crate::collector::Collector;
pub use crate::filesystem::{Attr, Filesystem, FilesystemOrigin, FsState};
pub use crate::inode::{Inode, InodeView};
pub use crate::inode_changeset::InodeChangeset;
pub use crate::inode_id::InodeId;
pub use crate::inodes::{InodeTable, Inodes};
pub use crate::object::{CloneObj, DeadObj, EntryObj, FileKind, HeaderObj, Object, PayloadObj};
pub use crate::object_id::ObjectId;
pub use crate::object_rw::{ObjectReader, ObjectWriter};
pub use crate::objects::Objects;
pub use crate::result::{FsError, FsResult};
pub use crate::storage::{Storage, Store};
pub use crate::transaction::{Transaction, TransactionState, TxView};
