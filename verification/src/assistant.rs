//! Identifier and configuration records for an assistant client.
//!
//! These are plain data: opaque string identifiers handed out by a remote
//! service, and the few fields needed to ask for a new assistant. The
//! calls that use them live outside the verified library.

use vstd::prelude::*;

verus! {

/// An assistant's identifier.
#[derive(Clone, Debug)]
pub struct AsstId {
    id: String,
}

impl View for AsstId {
    type V = Seq<char>;

    closed spec fn view(&self) -> Seq<char> {
        self.id@
    }
}

impl AsstId {
    /// Wrap a raw identifier.
    pub fn new(id: String) -> (r: AsstId)
        ensures
            r@ == id@,
    {
        AsstId { id }
    }

    /// The raw identifier.
    pub fn as_str(&self) -> (r: &str)
        ensures
            r@ == self@,
    {
        self.id.as_str()
    }
}

/// A conversation thread's identifier.
#[derive(Clone, Debug)]
pub struct ThreadId {
    id: String,
}

impl View for ThreadId {
    type V = Seq<char>;

    closed spec fn view(&self) -> Seq<char> {
        self.id@
    }
}

impl ThreadId {
    /// Wrap a raw identifier.
    pub fn new(id: String) -> (r: ThreadId)
        ensures
            r@ == id@,
    {
        ThreadId { id }
    }

    /// The raw identifier.
    pub fn as_str(&self) -> (r: &str)
        ensures
            r@ == self@,
    {
        self.id.as_str()
    }
}

/// An uploaded file's identifier.
#[derive(Clone, Debug)]
pub struct FileId {
    id: String,
}

impl View for FileId {
    type V = Seq<char>;

    closed spec fn view(&self) -> Seq<char> {
        self.id@
    }
}

impl FileId {
    /// Wrap a raw identifier.
    pub fn new(id: String) -> (r: FileId)
        ensures
            r@ == id@,
    {
        FileId { id }
    }

    /// The raw identifier.
    pub fn as_str(&self) -> (r: &str)
        ensures
            r@ == self@,
    {
        self.id.as_str()
    }
}

/// A vector store's identifier.
#[derive(Clone, Debug)]
pub struct VectorStoresId {
    id: String,
}

impl View for VectorStoresId {
    type V = Seq<char>;

    closed spec fn view(&self) -> Seq<char> {
        self.id@
    }
}

impl VectorStoresId {
    /// Wrap a raw identifier.
    pub fn new(id: String) -> (r: VectorStoresId)
        ensures
            r@ == id@,
    {
        VectorStoresId { id }
    }

    /// The raw identifier.
    pub fn as_str(&self) -> (r: &str)
        ensures
            r@ == self@,
    {
        self.id.as_str()
    }
}

/// What it takes to ask for a new assistant: a display name and the model
/// it should run.
#[derive(Clone, Debug)]
pub struct CreateConfig {
    pub name: String,
    pub model: String,
}

} // verus!
