//! What stands at a path of the file system, as far as stubs are concerned.
use vstd::prelude::*;
use crate::digest;
use crate::error::ErrorView;
use crate::error::StubError;
use crate::owner;
use crate::text;

verus! {

/// What was found at a path, without following a symbolic link at its end.
#[derive(Debug)]
pub enum Node {
    /// Nothing.
    Absent,
    /// The file system did not answer.
    Unknown { reason: String },
    /// A regular file. The bytes are missing where they cannot be read. Where
    /// the platform has no execute permission, every file counts as executable.
    File { bytes: Option<Vec<u8>>, executable: bool },
    /// A symbolic link, with the bytes of the file that it leads to, where they
    /// can be read.
    Symlink { bytes: Option<Vec<u8>> },
    /// A directory.
    Directory,
    /// Anything else, such as a pipe or a device.
    Special,
}

/// The model of a [`Node`].
pub enum NodeView {
    Absent,
    Unknown { reason: Seq<char> },
    File { bytes: Option<Seq<u8>>, executable: bool },
    Symlink { bytes: Option<Seq<u8>> },
    Directory,
    Special,
}

/// The bytes of an optional vector.
pub open spec fn bytes_view(bytes: Option<Vec<u8>>) -> Option<Seq<u8>> {
    match bytes {
        Some(data) => Some(data@),
        None => None,
    }
}

impl View for Node {
    type V = NodeView;

    open spec fn view(&self) -> NodeView {
        match self {
            Node::Absent => NodeView::Absent,
            Node::Unknown { reason } => NodeView::Unknown { reason: reason@ },
            Node::File { bytes, executable } => NodeView::File {
                bytes: bytes_view(*bytes),
                executable: *executable,
            },
            Node::Symlink { bytes } => NodeView::Symlink { bytes: bytes_view(*bytes) },
            Node::Directory => NodeView::Directory,
            Node::Special => NodeView::Special,
        }
    }
}

impl NodeView {
    /// Something is known to stand there.
    pub open spec fn present(self) -> bool {
        !(self is Absent) && !(self is Unknown)
    }

    /// The hash of a regular file that can be read.
    pub open spec fn hash(self) -> Option<Seq<char>> {
        match self {
            NodeView::File { bytes: Some(bytes), executable } => Some(digest::sha256_hex(bytes)),
            _ => None,
        }
    }

    /// The bundle that the file names as its owner.
    pub open spec fn owner(self) -> Option<Seq<char>> {
        match self {
            NodeView::File { bytes: Some(bytes), executable } => owner::owner_of_bytes(bytes),
            NodeView::Symlink { bytes: Some(bytes) } => owner::owner_of_bytes(bytes),
            _ => None,
        }
    }

    /// The file names a bundle other than `id` as its owner.
    pub open spec fn owned_by_other(self, id: Seq<char>) -> bool {
        match self.owner() {
            Some(owner) => owner != id,
            None => false,
        }
    }

    /// A regular file with this hash.
    pub open spec fn unchanged(self, hash: Seq<char>) -> bool {
        self is File && self.hash() == Some(hash)
    }
}

/// Whether something is known to stand at a path.
pub fn path_exists(node: &Node) -> (present: bool)
    ensures
        present == node@.present(),
{
    match node {
        Node::Absent => false,
        Node::Unknown { .. } => false,
        _ => true,
    }
}

/// Whether a regular file stands at a path.
pub fn is_regular_file(node: &Node) -> (regular: bool)
    ensures
        regular == (node@ is File),
{
    match node {
        Node::File { .. } => true,
        _ => false,
    }
}

/// The hash of the regular file at `path`.
pub fn file_hash(path: &str, node: &Node) -> (hash: Result<String, StubError>)
    ensures
        match hash {
            Ok(text) => node@.hash() == Some(text@),
            Err(error) => node@.hash() is None && error@ == (ErrorView::Unreadable { path: path@ }),
        },
{
    match node {
        Node::File { bytes: Some(bytes), .. } => Ok(digest::hash_sha256(bytes.as_slice())),
        _ => Err(StubError::Unreadable { path: path.to_owned() }),
    }
}

/// The bundle that the file names as its owner, if it can be read and has a
/// marker line.
pub fn file_bundle_owner(node: &Node) -> (owner: Option<String>)
    ensures
        text::text_view(owner) == node@.owner(),
{
    match node {
        Node::File { bytes: Some(bytes), .. } => owner::bundle_owner_of_bytes(bytes),
        Node::Symlink { bytes: Some(bytes) } => owner::bundle_owner_of_bytes(bytes),
        _ => None,
    }
}

/// Whether the file names the bundle `bundle_id` as its owner.
pub fn file_is_owned_by_bundle(node: &Node, bundle_id: &str) -> (owned: bool)
    ensures
        owned == (node@.owner() == Some(bundle_id@)),
{
    match file_bundle_owner(node) {
        Some(owner) => text::text_eq(owner.as_str(), bundle_id),
        None => false,
    }
}

/// Whether the file names a bundle other than `bundle_id` as its owner.
pub fn file_is_owned_by_another_bundle(node: &Node, bundle_id: &str) -> (owned: bool)
    ensures
        owned == node@.owned_by_other(bundle_id@),
{
    match file_bundle_owner(node) {
        Some(owner) => !text::text_eq(owner.as_str(), bundle_id),
        None => false,
    }
}

/// Only an absent node, and one of which the file system told nothing, is not
/// there.
pub proof fn law_presence(node: NodeView)
    ensures
        node.present() <==> (node is File || node is Symlink || node is Directory
            || node is Special),
{
}

/// A node has a hash exactly if it is a regular file whose bytes can be read, and
/// that is the hash of these bytes. It is unchanged since a hash was taken exactly
/// if it still has it.
pub proof fn law_hash_is_of_the_bytes(node: NodeView, hash: Seq<char>)
    ensures
        node.hash() == Some(hash) <==> (node matches NodeView::File { bytes: Some(bytes), .. }
            && digest::sha256_hex(bytes) == hash),
        node.hash() is None <==> !(node matches NodeView::File { bytes: Some(_), .. }),
        node.unchanged(hash) <==> (node matches NodeView::File { bytes: Some(bytes), .. }
            && digest::sha256_hex(bytes) == hash),
{
}

/// A node names the bundle that its bytes name. For a symbolic link these are the
/// bytes that it leads to.
pub proof fn law_owner_is_in_the_bytes(node: NodeView, id: Seq<char>)
    ensures
        node matches NodeView::File { bytes: Some(bytes), .. } ==> node.owner()
            == owner::owner_of_bytes(bytes),
        node matches NodeView::Symlink { bytes: Some(bytes) } ==> node.owner()
            == owner::owner_of_bytes(bytes),
        node.owner() is Some ==> (node matches NodeView::File { bytes: Some(_), .. }) || (
        node matches NodeView::Symlink { bytes: Some(_) }),
        node.owned_by_other(id) <==> (node.owner() matches Some(owner) && owner != id),
{
}

} // verus!
