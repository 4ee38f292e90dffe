use crate::inode_id::InodeId;
use crate::object_id::ObjectId;
use vstd::prelude::*;

verus! {

/// An inode as a value.
pub struct InodeView {
    pub oid: ObjectId,
    pub parent: InodeId,
    /// `None`: not yet read from the object tree; `Some`: the children in
    /// the order of the directory's list.
    pub children: Option<Seq<InodeId>>,
}

/// What the table holds of one inode: the object it stands for now, its
/// parent, and its children once they are resolved.
#[derive(Debug)]
pub struct Inode {
    pub oid: ObjectId,
    pub parent: InodeId,
    pub children: Option<Vec<InodeId>>,
}

impl View for Inode {
    type V = InodeView;

    open spec fn view(&self) -> InodeView {
        InodeView {
            oid: self.oid,
            parent: self.parent,
            children: match self.children {
                Some(children) => Some(children@),
                None => None,
            },
        }
    }
}

} // verus!
