//! Object identity: the digest of the canonical serialization, its
//! hexadecimal rendering, and the fan-out split used for storage paths.

use vstd::prelude::*;
use crate::codec::{serial_of, encode_object};
use crate::object::{Object, ObjectView};

verus! {

/// The SHA-1 digest of a byte sequence. The digest of given bytes is the
/// same in every process and on every machine; nothing short of the
/// algorithm itself would pin which bytes it is, so the function is left
/// uninterpreted and applied by the trusted wrapper below.
pub uninterp spec fn sha1_of(bytes: Seq<u8>) -> Seq<u8>;

/// Relies on sha1::Sha1 through the Digest interface: a one-shot digest
/// of the input bytes; the result depends on the input alone and is
/// always 20 bytes long.
#[verifier::external_body]
fn sha1_digest(data: &[u8]) -> (r: Vec<u8>)
    ensures
        r@ == sha1_of(data@),
        r@.len() == 20,
{
    let mut hasher: sha1::Sha1 = sha1::Digest::new();
    sha1::Digest::update(&mut hasher, data);
    sha1::Digest::finalize(hasher).to_vec()
}

/// The lowercase hexadecimal digit for a value below sixteen.
pub open spec fn hex_digit(n: int) -> char {
    seq!['0', '1', '2', '3', '4', '5', '6', '7', '8', '9', 'a', 'b', 'c', 'd', 'e', 'f'][n]
}

/// The lowercase hexadecimal rendering of a byte sequence: two digits
/// per byte, high nibble first.
pub open spec fn hex_of(bytes: Seq<u8>) -> Seq<char>
    decreases bytes.len(),
{
    if bytes.len() == 0 {
        Seq::empty()
    } else {
        seq![hex_digit(bytes[0] as int / 16), hex_digit(bytes[0] as int % 16)] + hex_of(
            bytes.drop_first(),
        )
    }
}

/// Relies on hex::encode: lowercase hexadecimal, two digits per byte,
/// high nibble first.
#[verifier::external_body]
fn hex_encode(data: &[u8]) -> (r: String)
    ensures
        r@ == hex_of(data@),
{
    hex::encode(data)
}

/// A 20-byte digest identifying an object by its canonical serialization.
pub struct ObjectId {
    pub bytes: Vec<u8>,
}

impl View for ObjectId {
    type V = Seq<u8>;

    open spec fn view(&self) -> Seq<u8> {
        self.bytes@
    }
}

impl ObjectId {
    /// A well-formed id holds exactly the digest's twenty bytes.
    pub open spec fn wf(&self) -> bool {
        self.bytes@.len() == 20
    }
}

/// The identity of an object: the digest of its canonical serialization,
/// never of the compressed bytes.
pub fn object_id(obj: &Object) -> (id: ObjectId)
    ensures
        id@ == sha1_of(serial_of(obj@)),
        id.wf(),
{
    let serial = encode_object(obj);
    let bytes = sha1_digest(serial.as_slice());
    ObjectId { bytes }
}

/// Content addressing: an object's id is a pure function of its kind and
/// payload, so identical content always maps to the identical id.
pub proof fn lemma_content_addressed(a: ObjectView, b: ObjectView)
    requires
        a.kind == b.kind,
        a.payload == b.payload,
    ensures
        sha1_of(serial_of(a)) == sha1_of(serial_of(b)),
{
    assert(a == b);
}

/// The hex rendering of an id.
pub fn object_id_hex(id: &ObjectId) -> (r: String)
    ensures
        r@ == hex_of(id@),
{
    hex_encode(id.bytes.as_slice())
}

/// Hex rendering distributes over concatenation.
proof fn lemma_hex_of_concat(a: Seq<u8>, b: Seq<u8>)
    ensures
        hex_of(a + b) == hex_of(a) + hex_of(b),
    decreases a.len(),
{
    if a.len() == 0 {
        assert(a + b =~= b);
        assert(hex_of(a) + hex_of(b) =~= hex_of(b));
    } else {
        assert((a + b).drop_first() =~= a.drop_first() + b);
        assert((a + b)[0] == a[0]);
        lemma_hex_of_concat(a.drop_first(), b);
        assert(hex_of(a + b) =~= hex_of(a) + hex_of(b));
    }
}

/// The fan-out names of an id: the first two hex characters form the
/// subdirectory name, the remaining thirty-eight the file name.
pub fn fan_out(id: &ObjectId) -> (r: (String, String))
    requires
        id.wf(),
    ensures
        r.0@ == hex_of(id@.take(1)),
        r.1@ == hex_of(id@.skip(1)),
        r.0@.len() == 2,
        r.1@.len() == 38,
{
    let mut head: Vec<u8> = Vec::new();
    head.push(id.bytes[0]);
    let mut tail: Vec<u8> = Vec::new();
    let mut i: usize = 1;
    while i < id.bytes.len()
        invariant
            1 <= i <= id.bytes@.len(),
            id.bytes@.len() == 20,
            tail@ == id.bytes@.subrange(1, i as int),
        decreases id.bytes@.len() - i,
    {
        tail.push(id.bytes[i]);
        proof {
            assert(id.bytes@.subrange(1, i as int).push(id.bytes@[i as int]) =~= id.bytes@
                .subrange(1, i + 1 as int));
        }
        i = i + 1;
    }
    proof {
        assert(head@ =~= id@.take(1));
        assert(tail@ =~= id@.skip(1));
        lemma_hex_of_len(id@.take(1));
        lemma_hex_of_len(id@.skip(1));
    }
    (hex_encode(head.as_slice()), hex_encode(tail.as_slice()))
}

/// Hex rendering has two characters per byte.
pub proof fn lemma_hex_of_len(bytes: Seq<u8>)
    ensures
        hex_of(bytes).len() == 2 * bytes.len(),
    decreases bytes.len(),
{
    if bytes.len() > 0 {
        lemma_hex_of_len(bytes.drop_first());
    }
}

/// The fan-out split is purely derived and reversible: directory and
/// file names concatenate back to the full hex id.
pub proof fn lemma_fan_out_reversible(id: Seq<u8>)
    requires
        id.len() >= 1,
    ensures
        hex_of(id.take(1)) + hex_of(id.skip(1)) == hex_of(id),
{
    assert(id.take(1) + id.skip(1) =~= id);
    lemma_hex_of_concat(id.take(1), id.skip(1));
}

/// A lowercase hexadecimal digit, as a byte of text.
pub open spec fn is_hex_byte(b: u8) -> bool {
    (48 <= b && b <= 57) || (97 <= b && b <= 102)
}

/// Checks that `s` is a well-formed textual object id: exactly forty
/// lowercase hexadecimal bytes.
pub fn valid_hex_id(s: &[u8]) -> (r: bool)
    ensures
        r == (s@.len() == 40 && forall|i: int| 0 <= i < 40 ==> is_hex_byte(#[trigger] s@[i])),
{
    if s.len() != 40 {
        return false;
    }
    let mut i: usize = 0;
    while i < 40
        invariant
            i <= 40,
            s@.len() == 40,
            forall|j: int| 0 <= j < i ==> is_hex_byte(#[trigger] s@[j]),
        decreases 40 - i,
    {
        let b = s[i];
        if !((48 <= b && b <= 57) || (97 <= b && b <= 102)) {
            return false;
        }
        i = i + 1;
    }
    true
}

} // verus!
