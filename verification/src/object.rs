//! The objects held by the store: a typed, immutable payload of bytes,
//! together with the errors that the store and codec surface.

use vstd::prelude::*;

verus! {

/// The tag of a stored object. The set is closed so that adding a kind
/// forces every match over it to be revisited.
#[derive(Clone, Copy, PartialEq, Eq, Structural, Debug)]
pub enum Kind {
    Blob,
    Tree,
    Commit,
}

/// Every failure the codec, the store and the bootstrap can surface.
#[derive(Clone, Copy, PartialEq, Eq, Structural, Debug)]
pub enum StoreError {
    /// A store operation was attempted before the repository layout exists.
    RepositoryNotInitialized,
    /// Bootstrap was attempted on a root that already holds a repository.
    AlreadyInitialized,
    /// The requested id has no corresponding stored object.
    ObjectNotFound,
    /// A decoded header fails structural or encoding validation.
    MalformedHeader,
    /// A decoded header names a kind the codec does not recognize.
    UnknownObjectKind,
    /// Fewer payload bytes are available than the header declares.
    TruncatedObject,
    /// Bytes remain after the declared payload has been consumed.
    TrailingData,
    /// An underlying filesystem or compression failure not otherwise classified.
    IoFailure,
    /// The object kind is valid but the requested operation does not support it.
    UnsupportedKind,
}

/// The mathematical value of an [`Object`]: its kind and payload bytes.
pub ghost struct ObjectView {
    pub kind: Kind,
    pub payload: Seq<u8>,
}

/// An immutable unit of stored content. Its identity is a pure function of
/// `kind` and `payload`; its size is always `payload.len()`.
#[derive(Debug)]
pub struct Object {
    pub kind: Kind,
    pub payload: Vec<u8>,
}

impl View for Object {
    type V = ObjectView;

    open spec fn view(&self) -> ObjectView {
        ObjectView { kind: self.kind, payload: self.payload@ }
    }
}

impl Object {
    /// The byte length of the payload; the object's `size` is derived,
    /// never stored separately.
    pub fn size(&self) -> (n: usize)
        ensures
            n == self@.payload.len(),
    {
        self.payload.len()
    }
}

/// The payload that `cat-file -p` may print: only blobs have a printable
/// raw payload; every other kind is refused explicitly rather than dumped.
pub fn pretty_payload(obj: &Object) -> (r: Result<Vec<u8>, StoreError>)
    ensures
        obj.kind == Kind::Blob <==> r is Ok,
        r is Ok ==> r.unwrap()@ == obj@.payload,
        r is Err ==> r == Result::<Vec<u8>, StoreError>::Err(StoreError::UnsupportedKind),
{
    match obj.kind {
        Kind::Blob => {
            let mut out: Vec<u8> = Vec::new();
            let mut i: usize = 0;
            while i < obj.payload.len()
                invariant
                    i <= obj.payload.len(),
                    out@ == obj.payload@.take(i as int),
                decreases obj.payload.len() - i,
            {
                out.push(obj.payload[i]);
                proof {
                    assert(out@ =~= obj.payload@.take(i + 1 as int));
                }
                i = i + 1;
            }
            proof {
                assert(out@ =~= obj.payload@);
            }
            Ok(out)
        }
        _ => Err(StoreError::UnsupportedKind),
    }
}

} // verus!
