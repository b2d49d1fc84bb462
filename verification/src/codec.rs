//! The object codec: the canonical serialization of an object and its exact
//! inverse.
//!
//! Canonical serialization = `"<kind-name> <payload-length>\0"` followed by
//! the raw payload bytes, where the length is decimal ASCII. The decoder
//! accepts a byte stream and either recovers the unique object it frames or
//! reports precisely which framing rule failed.

use vstd::prelude::*;
use vstd::assert_seqs_equal;
use crate::object::{Kind, Object, ObjectView, StoreError};
use crate::utf8::utf8_valid;

verus! {

/// Longest header (bytes before the terminating nul) the decoder accepts.
/// A canonical header is at most 6 name bytes, one space and 20 digits, so
/// every canonical serialization stays well inside this bound.
pub const MAX_HEADER_LEN: usize = 32;

/// The lowercase ASCII name of an object kind, as it appears in a header.
pub open spec fn kind_name(k: Kind) -> Seq<u8> {
    match k {
        Kind::Blob => seq![98u8, 108u8, 111u8, 98u8],
        Kind::Tree => seq![116u8, 114u8, 101u8, 101u8],
        Kind::Commit => seq![99u8, 111u8, 109u8, 109u8, 105u8, 116u8],
    }
}

/// The kind a header name denotes, if any.
pub open spec fn kind_of_name(name: Seq<u8>) -> Option<Kind> {
    if name == kind_name(Kind::Blob) {
        Some(Kind::Blob)
    } else if name == kind_name(Kind::Tree) {
        Some(Kind::Tree)
    } else if name == kind_name(Kind::Commit) {
        Some(Kind::Commit)
    } else {
        None
    }
}

/// ASCII decimal digit.
pub open spec fn is_digit(b: u8) -> bool {
    48 <= b && b <= 57
}

pub open spec fn all_digits(s: Seq<u8>) -> bool {
    forall|i: int| 0 <= i < s.len() ==> is_digit(#[trigger] s[i])
}

/// The number a big-endian string of ASCII digits denotes.
pub open spec fn dec_value(s: Seq<u8>) -> int
    decreases s.len(),
{
    if s.len() == 0 {
        0
    } else {
        dec_value(s.drop_last()) * 10 + (s.last() - 48)
    }
}

/// The canonical (shortest, no leading zero) decimal digits of `n`.
pub open spec fn digits_of(n: nat) -> Seq<u8>
    decreases n,
{
    if n < 10 {
        seq![(48 + n) as u8]
    } else {
        digits_of(n / 10).push((48 + n % 10) as u8)
    }
}

/// The canonical serialization of an object: header then raw payload.
pub open spec fn serial_of(o: ObjectView) -> Seq<u8> {
    kind_name(o.kind) + seq![32u8] + digits_of(o.payload.len()) + seq![0u8] + o.payload
}

/// Index of the first occurrence of `b` in `s`, or -1 if there is none.
pub open spec fn find_byte(s: Seq<u8>, b: u8) -> int
    decreases s.len(),
{
    if s.len() == 0 {
        -1
    } else if s[0] == b {
        0
    } else if find_byte(s.drop_first(), b) < 0 {
        -1
    } else {
        find_byte(s.drop_first(), b) + 1
    }
}

pub proof fn lemma_find_byte(s: Seq<u8>, b: u8)
    ensures
        find_byte(s, b) < 0 ==> forall|i: int| 0 <= i < s.len() ==> s[i] != b,
        find_byte(s, b) >= 0 ==> find_byte(s, b) < s.len() && s[find_byte(s, b)] == b
            && forall|i: int| 0 <= i < find_byte(s, b) ==> s[i] != b,
    decreases s.len(),
{
    if s.len() == 0 {
    } else if s[0] == b {
    } else {
        lemma_find_byte(s.drop_first(), b);
        assert(forall|i: int| 1 <= i < s.len() ==> s[i] == s.drop_first()[i - 1]);
    }
}

/// The first occurrence characterizes `find_byte` completely.
pub proof fn lemma_find_byte_at(s: Seq<u8>, b: u8, p: int)
    requires
        0 <= p < s.len(),
        s[p] == b,
        forall|i: int| 0 <= i < p ==> s[i] != b,
    ensures
        find_byte(s, b) == p,
{
    lemma_find_byte(s, b);
    if find_byte(s, b) < 0 {
        assert(s[p] != b);
    } else {
        let q = find_byte(s, b);
        if q < p {
            assert(s[q] != b);
        } else if q > p {
            assert(s[p] != b);
        }
    }
}

/// What decoding a byte stream yields, stated directly from the framing
/// rules: find the header, check its text, check the kind, check the
/// declared length, then demand exactly that many payload bytes.
pub open spec fn decode_spec(bytes: Seq<u8>) -> Result<ObjectView, StoreError> {
    let p = find_byte(bytes, 0);
    if p < 0 || p > MAX_HEADER_LEN {
        Err(StoreError::MalformedHeader)
    } else {
        let header = bytes.take(p);
        if !utf8_valid(header) || find_byte(header, 32) < 0 {
            Err(StoreError::MalformedHeader)
        } else {
            let sp = find_byte(header, 32);
            let name = header.take(sp);
            let digits = header.skip(sp + 1);
            match kind_of_name(name) {
                None => Err(StoreError::UnknownObjectKind),
                Some(k) => {
                    if digits.len() == 0 || !all_digits(digits) || dec_value(digits) > usize::MAX {
                        Err(StoreError::MalformedHeader)
                    } else {
                        let rest = bytes.skip(p + 1);
                        if rest.len() < dec_value(digits) {
                            Err(StoreError::TruncatedObject)
                        } else if rest.len() > dec_value(digits) {
                            Err(StoreError::TrailingData)
                        } else {
                            Ok(ObjectView { kind: k, payload: rest })
                        }
                    }
                }
            }
        }
    }
}

/// Ten to the `k`.
pub open spec fn pow10(k: nat) -> int
    decreases k,
{
    if k == 0 {
        1
    } else {
        10 * pow10((k - 1) as nat)
    }
}

proof fn lemma_pow10_pos(k: nat)
    ensures
        pow10(k) >= 1,
    decreases k,
{
    if k > 0 {
        lemma_pow10_pos((k - 1) as nat);
    }
}

proof fn lemma_digits_of_len(n: nat, k: nat)
    requires
        k >= 1,
        n < pow10(k),
    ensures
        digits_of(n).len() <= k,
    decreases n,
{
    if n >= 10 {
        assert(pow10(k) == 10 * pow10((k - 1) as nat));
        lemma_pow10_pos((k - 1) as nat);
        vstd::arithmetic::div_mod::lemma_fundamental_div_mod(n as int, 10);
        assert(n / 10 < pow10((k - 1) as nat));
        assert(k >= 2) by {
            if k == 1 {
                assert(pow10(1int as nat) == 10);
            }
        }
        lemma_digits_of_len(n / 10, (k - 1) as nat);
    }
}

/// No representable length needs more than twenty decimal digits.
proof fn lemma_digits_of_len_max(n: nat)
    requires
        n <= usize::MAX,
    ensures
        digits_of(n).len() <= 20,
{
    assert(pow10(0int as nat) == 1);
    assert(pow10(1int as nat) == 10);
    assert(pow10(2int as nat) == 100);
    assert(pow10(3int as nat) == 1000);
    assert(pow10(4int as nat) == 10000);
    assert(pow10(5int as nat) == 100000);
    assert(pow10(6int as nat) == 1000000);
    assert(pow10(7int as nat) == 10000000);
    assert(pow10(8int as nat) == 100000000);
    assert(pow10(9int as nat) == 1000000000);
    assert(pow10(10int as nat) == 10000000000);
    assert(pow10(11int as nat) == 100000000000);
    assert(pow10(12int as nat) == 1000000000000);
    assert(pow10(13int as nat) == 10000000000000);
    assert(pow10(14int as nat) == 100000000000000);
    assert(pow10(15int as nat) == 1000000000000000);
    assert(pow10(16int as nat) == 10000000000000000);
    assert(pow10(17int as nat) == 100000000000000000);
    assert(pow10(18int as nat) == 1000000000000000000);
    assert(pow10(19int as nat) == 10000000000000000000);
    assert(pow10(20int as nat) == 100000000000000000000);
    lemma_digits_of_len(n, 20);
}

/// The digits of a number are digits, and there is at least one.
proof fn lemma_digits_of_digits(n: nat)
    ensures
        digits_of(n).len() >= 1,
        forall|i: int| 0 <= i < digits_of(n).len() ==> 48 <= #[trigger] digits_of(n)[i] <= 57,
    decreases n,
{
    if n >= 10 {
        lemma_digits_of_digits(n / 10);
    }
}

/// Writing a number in decimal and reading it back is the identity.
proof fn lemma_dec_digits_of(n: nat)
    ensures
        dec_value(digits_of(n)) == n,
    decreases n,
{
    if n < 10 {
        assert((48 + n) as u8 == 48 + n);
        assert(digits_of(n).drop_last() =~= Seq::<u8>::empty());
        assert(digits_of(n).last() == (48 + n) as u8);
        assert(dec_value(Seq::<u8>::empty()) == 0);
        assert(digits_of(n).len() == 1);
        assert(dec_value(digits_of(n)) == dec_value(digits_of(n).drop_last()) * 10 + (digits_of(
            n,
        ).last() - 48));
    } else {
        vstd::arithmetic::div_mod::lemma_fundamental_div_mod(n as int, 10);
        lemma_dec_digits_of(n / 10);
        assert((48 + n % 10) as u8 == 48 + n % 10);
        assert(digits_of(n).drop_last() =~= digits_of(n / 10));
        assert(digits_of(n).last() == (48 + n % 10) as u8);
    }
}

/// Kind names are short lowercase ASCII words.
proof fn lemma_kind_name_bytes(k: Kind)
    ensures
        1 <= kind_name(k).len() <= 6,
        forall|i: int| 0 <= i < kind_name(k).len() ==> 97 <= #[trigger] kind_name(k)[i] <= 122,
{
    match k {
        Kind::Blob => {
            assert(kind_name(k)[0] == 98 && kind_name(k)[1] == 108 && kind_name(k)[2] == 111
                && kind_name(k)[3] == 98);
        }
        Kind::Tree => {
            assert(kind_name(k)[0] == 116 && kind_name(k)[1] == 114 && kind_name(k)[2] == 101
                && kind_name(k)[3] == 101);
        }
        Kind::Commit => {
            assert(kind_name(k)[0] == 99 && kind_name(k)[1] == 111 && kind_name(k)[2] == 109
                && kind_name(k)[3] == 109 && kind_name(k)[4] == 105 && kind_name(k)[5] == 116);
        }
    }
}

/// Each kind is recovered from its own name.
proof fn lemma_kind_name_inverse(k: Kind)
    ensures
        kind_of_name(kind_name(k)) == Some(k),
{
    match k {
        Kind::Blob => {
        }
        Kind::Tree => {
            assert(kind_name(Kind::Tree) != kind_name(Kind::Blob)) by {
                if kind_name(Kind::Tree) == kind_name(Kind::Blob) {
                    assert(kind_name(Kind::Tree)[0] == kind_name(Kind::Blob)[0]);
                    assert(kind_name(Kind::Tree)[0] == 116);
                    assert(kind_name(Kind::Blob)[0] == 98);
                }
            }
        }
        Kind::Commit => {
            assert(kind_name(Kind::Commit).len() == 6);
            assert(kind_name(Kind::Blob).len() == 4);
            assert(kind_name(Kind::Tree).len() == 4);
        }
    }
}

/// The decoder on a canonical header followed by arbitrary bytes: it
/// accepts exactly when the byte count matches the declared length, and
/// otherwise reports truncation or trailing data.
#[verifier::rlimit(60)]
pub proof fn lemma_decode_framed(o: ObjectView, extra: Seq<u8>)
    requires
        o.payload.len() <= usize::MAX,
    ensures
        ({
            let bytes = kind_name(o.kind) + seq![32u8] + digits_of(o.payload.len()) + seq![0u8]
                + extra;
            decode_spec(bytes) == (if extra.len() < o.payload.len() {
                Err::<ObjectView, StoreError>(StoreError::TruncatedObject)
            } else if extra.len() > o.payload.len() {
                Err::<ObjectView, StoreError>(StoreError::TrailingData)
            } else {
                Ok::<ObjectView, StoreError>(ObjectView { kind: o.kind, payload: extra })
            })
        }),
{
    let name = kind_name(o.kind);
    let digits = digits_of(o.payload.len());
    let bytes = name + seq![32u8] + digits + seq![0u8] + extra;
    let hl = name.len() + 1 + digits.len();
    lemma_kind_name_bytes(o.kind);
    lemma_digits_of_digits(o.payload.len());
    lemma_digits_of_len_max(o.payload.len());
    lemma_dec_digits_of(o.payload.len());
    assert(bytes.len() == hl + 1 + extra.len());
    assert(forall|i: int| 0 <= i < name.len() ==> bytes[i] == name[i]);
    assert(bytes[name.len() as int] == 32);
    assert(forall|i: int| 0 <= i < digits.len() ==> bytes[name.len() + 1 + i] == digits[i]);
    assert(bytes[hl as int] == 0);
    assert(forall|j: int| 0 <= j < hl ==> bytes[j] != 0) by {
        assert(forall|j: int| name.len() + 1 <= j < hl ==> bytes[j] == digits[j - (name.len()
            + 1)]);
    }
    lemma_find_byte_at(bytes, 0, hl as int);
    assert(hl <= MAX_HEADER_LEN);
    let header = bytes.take(hl as int);
    assert(header =~= name + seq![32u8] + digits);
    assert(forall|j: int| 0 <= j < header.len() ==> header[j] < 128) by {
        assert(forall|j: int| name.len() + 1 <= j < hl ==> header[j] == digits[j - (name.len()
            + 1)]);
    }
    crate::utf8::lemma_ascii_utf8(header);
    assert(forall|j: int| 0 <= j < name.len() ==> header[j] != 32);
    assert(header[name.len() as int] == 32);
    lemma_find_byte_at(header, 32, name.len() as int);
    assert(header.take(name.len() as int) =~= name);
    lemma_kind_name_inverse(o.kind);
    assert(header.skip(name.len() + 1 as int) =~= digits);
    assert(dec_value(digits) == o.payload.len());
    assert(bytes.skip(hl + 1 as int) =~= extra);
}

/// Round trip: decoding the canonical serialization of any object yields
/// exactly that object's kind and payload.
pub proof fn lemma_round_trip(o: ObjectView)
    requires
        o.payload.len() <= usize::MAX,
    ensures
        decode_spec(serial_of(o)) == Ok::<ObjectView, StoreError>(o),
{
    lemma_decode_framed(o, o.payload);
    assert(serial_of(o) == kind_name(o.kind) + seq![32u8] + digits_of(o.payload.len())
        + seq![0u8] + o.payload);
}

/// Truncation detection: cutting any positive number of payload bytes off
/// the end of a canonical serialization makes decoding fail with
/// `TruncatedObject`.
pub proof fn lemma_truncation_detected(o: ObjectView, dropped: int)
    requires
        o.payload.len() <= usize::MAX,
        1 <= dropped <= o.payload.len(),
    ensures
        decode_spec(serial_of(o).take(serial_of(o).len() - dropped)) == Err::<
            ObjectView,
            StoreError,
        >(StoreError::TruncatedObject),
{
    let kept = o.payload.take(o.payload.len() - dropped);
    lemma_decode_framed(o, kept);
    assert(serial_of(o).take(serial_of(o).len() - dropped) =~= kind_name(o.kind) + seq![32u8]
        + digits_of(o.payload.len()) + seq![0u8] + kept);
}

/// Trailing-data detection: one extra byte after a validly framed object
/// makes decoding fail with `TrailingData`.
pub proof fn lemma_trailing_detected(o: ObjectView, b: u8)
    requires
        o.payload.len() <= usize::MAX,
    ensures
        decode_spec(serial_of(o).push(b)) == Err::<ObjectView, StoreError>(
            StoreError::TrailingData,
        ),
{
    lemma_decode_framed(o, o.payload.push(b));
    assert(serial_of(o).push(b) =~= kind_name(o.kind) + seq![32u8] + digits_of(o.payload.len())
        + seq![0u8] + o.payload.push(b));
}

/// Appends the canonical decimal digits of `n`.
fn push_decimal(out: &mut Vec<u8>, n: usize)
    ensures
        final(out)@ == old(out)@ + digits_of(n as nat),
    decreases n,
{
    if n < 10 {
        out.push(48 + n as u8);
        proof {
            assert_seqs_equal!(out@ == old(out)@ + digits_of(n as nat));
        }
    } else {
        proof {
            vstd::arithmetic::div_mod::lemma_div_decreases(n as int, 10);
        }
        push_decimal(out, n / 10);
        out.push(48 + (n % 10) as u8);
        proof {
            assert(digits_of(n as nat) == digits_of(n as nat / 10).push((48 + n as nat % 10) as u8));
            assert_seqs_equal!(out@ == old(out)@ + digits_of(n as nat));
        }
    }
}

/// Appends the header name of `k`.
fn push_kind_name(out: &mut Vec<u8>, k: Kind)
    ensures
        final(out)@ == old(out)@ + kind_name(k),
{
    match k {
        Kind::Blob => {
            out.push(98);
            out.push(108);
            out.push(111);
            out.push(98);
        }
        Kind::Tree => {
            out.push(116);
            out.push(114);
            out.push(101);
            out.push(101);
        }
        Kind::Commit => {
            out.push(99);
            out.push(111);
            out.push(109);
            out.push(109);
            out.push(105);
            out.push(116);
        }
    }
    proof {
        assert_seqs_equal!(out@ == old(out)@ + kind_name(k));
    }
}

/// The value of a decode result, for stating that an executable result
/// agrees with [`decode_spec`].
pub open spec fn decoded_view(r: Result<Object, StoreError>) -> Result<ObjectView, StoreError> {
    match r {
        Ok(o) => Ok(o@),
        Err(e) => Err(e),
    }
}

/// Once a digit prefix already exceeds `m`, the whole string's value does
/// too: every further byte multiplies by ten and subtracts at most 48.
proof fn lemma_dec_value_extend_big(s: Seq<u8>, k: int, m: int)
    requires
        0 <= k <= s.len(),
        dec_value(s.take(k)) > m,
        m >= 48,
    ensures
        dec_value(s) > m,
    decreases s.len() - k,
{
    if k < s.len() {
        assert(s.take(k + 1).drop_last() =~= s.take(k));
        assert(s.take(k + 1).last() == s[k]);
        assert(dec_value(s.take(k + 1)) == dec_value(s.take(k)) * 10 + (s[k] - 48));
        lemma_dec_value_extend_big(s, k + 1, m);
    } else {
        assert(s.take(k) =~= s);
    }
}

/// Maps a header name to its kind.
fn parse_kind(bytes: &[u8], end: usize) -> (r: Option<Kind>)
    requires
        end <= bytes@.len(),
    ensures
        r == kind_of_name(bytes@.take(end as int)),
{
    let ghost name = bytes@.take(end as int);
    proof {
        assert(name.len() == end);
        assert(forall|i: int| 0 <= i < end ==> name[i] == bytes@[i]);
    }
    if end == 4 {
        if bytes[0] == 98 && bytes[1] == 108 && bytes[2] == 111 && bytes[3] == 98 {
            proof {
                assert(name =~= kind_name(Kind::Blob));
            }
            return Some(Kind::Blob);
        }
        if bytes[0] == 116 && bytes[1] == 114 && bytes[2] == 101 && bytes[3] == 101 {
            proof {
                assert(name =~= kind_name(Kind::Tree));
            }
            return Some(Kind::Tree);
        }
        proof {
            assert(name != kind_name(Kind::Blob)) by {
                if name == kind_name(Kind::Blob) {
                    assert(name[0] == 98 && name[1] == 108 && name[2] == 111 && name[3] == 98);
                }
            }
            assert(name != kind_name(Kind::Tree)) by {
                if name == kind_name(Kind::Tree) {
                    assert(name[0] == 116 && name[1] == 114 && name[2] == 101 && name[3] == 101);
                }
            }
            assert(name != kind_name(Kind::Commit)) by {
                if name == kind_name(Kind::Commit) {
                    assert(name.len() == 6);
                }
            }
        }
        return None;
    }
    if end == 6 {
        if bytes[0] == 99 && bytes[1] == 111 && bytes[2] == 109 && bytes[3] == 109 && bytes[4]
            == 105 && bytes[5] == 116 {
            proof {
                assert(name =~= kind_name(Kind::Commit));
            }
            return Some(Kind::Commit);
        }
        proof {
            assert(name != kind_name(Kind::Blob)) by {
                if name == kind_name(Kind::Blob) {
                    assert(name.len() == 4);
                }
            }
            assert(name != kind_name(Kind::Tree)) by {
                if name == kind_name(Kind::Tree) {
                    assert(name.len() == 4);
                }
            }
            assert(name != kind_name(Kind::Commit)) by {
                if name == kind_name(Kind::Commit) {
                    assert(name[0] == 99 && name[1] == 111 && name[2] == 109 && name[3] == 109
                        && name[4] == 105 && name[5] == 116);
                }
            }
        }
        return None;
    }
    proof {
        assert(kind_name(Kind::Blob).len() == 4);
        assert(kind_name(Kind::Tree).len() == 4);
        assert(kind_name(Kind::Commit).len() == 6);
    }
    None
}

/// Index of the first occurrence of `b` among the first `limit` bytes.
fn find_byte_upto(bytes: &[u8], b: u8, limit: usize) -> (r: Option<usize>)
    requires
        limit <= bytes@.len(),
    ensures
        match r {
            Some(p) => p < limit && bytes@[p as int] == b && forall|j: int|
                0 <= j < p ==> bytes@[j] != b,
            None => forall|j: int| 0 <= j < limit ==> bytes@[j] != b,
        },
{
    let mut p: usize = 0;
    while p < limit
        invariant
            p <= limit,
            limit <= bytes@.len(),
            forall|j: int| 0 <= j < p ==> bytes@[j] != b,
        decreases limit - p,
    {
        if bytes[p] == b {
            return Some(p);
        }
        p = p + 1;
    }
    None
}

/// Decodes a canonical serialization back into an object, reporting
/// exactly which framing rule fails on every other input.
#[verifier::loop_isolation(false)]
pub fn decode_object(bytes: &[u8]) -> (r: Result<Object, StoreError>)
    ensures
        decoded_view(r) == decode_spec(bytes@),
{
    let n = bytes.len();
    // Scan for the header's terminating nul, giving up past the bound.
    let limit = if n < MAX_HEADER_LEN + 1 {
        n
    } else {
        MAX_HEADER_LEN + 1
    };
    let p = match find_byte_upto(bytes, 0, limit) {
        Some(p) => p,
        None => {
            proof {
                lemma_find_byte(bytes@, 0);
                let q = find_byte(bytes@, 0);
                if 0 <= q && q <= MAX_HEADER_LEN {
                    assert(bytes@[q] != 0);
                }
            }
            return Err(StoreError::MalformedHeader);
        }
    };
    proof {
        lemma_find_byte_at(bytes@, 0, p as int);
    }
    let ghost header = bytes@.take(p as int);
    // The header must be UTF-8 text.
    if !crate::utf8::check_utf8_prefix(bytes, p) {
        return Err(StoreError::MalformedHeader);
    }
    // Split the header on its first space.
    proof {
        assert(forall|j: int| 0 <= j < p ==> header[j] == bytes@[j]);
    }
    let sp = match find_byte_upto(bytes, 32, p) {
        Some(s) => s,
        None => {
            proof {
                lemma_find_byte(header, 32);
                let q = find_byte(header, 32);
                if q >= 0 {
                    assert(header[q] == bytes@[q]);
                }
            }
            return Err(StoreError::MalformedHeader);
        }
    };
    proof {
        lemma_find_byte_at(header, 32, sp as int);
        assert(header.take(sp as int) =~= bytes@.take(sp as int));
    }
    // The name before the space must denote a known kind.
    let kind = match parse_kind(bytes, sp) {
        Some(k) => k,
        None => {
            return Err(StoreError::UnknownObjectKind);
        }
    };
    // The text after the space must be decimal digits denoting a length
    // that the machine can represent.
    let ghost digits = header.skip(sp + 1 as int);
    proof {
        assert(digits =~= bytes@.subrange(sp + 1 as int, p as int));
    }
    if sp + 1 == p {
        proof {
            assert(digits.len() == 0);
        }
        return Err(StoreError::MalformedHeader);
    }
    let mut acc: usize = 0;
    let mut j: usize = sp + 1;
    while j < p
        invariant
            sp + 1 <= j <= p,
            sp < p < n,
            n == bytes@.len(),
            header == bytes@.take(p as int),
            digits == header.skip(sp + 1 as int),
            digits =~= bytes@.subrange(sp + 1 as int, p as int),
            all_digits(digits.take(j - (sp + 1))),
            acc == dec_value(digits.take(j - (sp + 1))),
        decreases p - j,
    {
        let d = bytes[j];
        proof {
            assert(digits[j - (sp + 1)] == bytes@[j as int]);
        }
        if !(48 <= d && d <= 57) {
            proof {
                assert(!is_digit(digits[j - (sp + 1)]));
            }
            return Err(StoreError::MalformedHeader);
        }
        let ghost taken = digits.take(j - (sp + 1));
        proof {
            assert(digits.take(j - sp) =~= taken.push(d));
            assert(taken.push(d).drop_last() =~= taken);
            assert(dec_value(digits.take(j - sp)) == acc * 10 + (d - 48));
        }
        let next = match acc.checked_mul(10) {
            Some(t) => t.checked_add((d - 48) as usize),
            None => None,
        };
        match next {
            Some(v) => {
                acc = v;
            }
            None => {
                proof {
                    assert(dec_value(digits.take(j - sp)) > usize::MAX);
                    lemma_dec_value_extend_big(digits, j - sp, usize::MAX as int);
                }
                return Err(StoreError::MalformedHeader);
            }
        }
        j = j + 1;
    }
    proof {
        assert(digits.take(p - (sp + 1)) =~= digits);
    }
    // Exactly the declared number of payload bytes must follow the header.
    let avail = n - (p + 1);
    if avail < acc {
        return Err(StoreError::TruncatedObject);
    }
    if avail > acc {
        return Err(StoreError::TrailingData);
    }
    let mut payload: Vec<u8> = Vec::new();
    let mut m: usize = p + 1;
    while m < n
        invariant
            p + 1 <= m <= n,
            n == bytes@.len(),
            payload@ == bytes@.subrange(p + 1 as int, m as int),
        decreases n - m,
    {
        payload.push(bytes[m]);
        proof {
            assert(bytes@.subrange(p + 1 as int, m as int).push(bytes@[m as int]) =~= bytes@
                .subrange(p + 1 as int, m + 1 as int));
        }
        m = m + 1;
    }
    proof {
        assert(payload@ =~= bytes@.skip(p + 1 as int));
    }
    Ok(Object { kind, payload })
}

/// Encodes an object into its canonical serialization.
pub fn encode_object(obj: &Object) -> (r: Vec<u8>)
    ensures
        r@ == serial_of(obj@),
{
    let mut out: Vec<u8> = Vec::new();
    push_kind_name(&mut out, obj.kind);
    out.push(32);
    push_decimal(&mut out, obj.payload.len());
    out.push(0);
    let mut i: usize = 0;
    while i < obj.payload.len()
        invariant
            i <= obj.payload.len(),
            out@ == kind_name(obj.kind) + seq![32u8] + digits_of(obj.payload@.len())
                + seq![0u8] + obj.payload@.take(i as int),
        decreases obj.payload.len() - i,
    {
        out.push(obj.payload[i]);
        proof {
            assert_seqs_equal!(obj.payload@.take(i as int).push(obj.payload@[i as int])
                == obj.payload@.take(i + 1));
        }
        i = i + 1;
    }
    proof {
        assert(obj.payload@.take(obj.payload@.len() as int) =~= obj.payload@);
        assert_seqs_equal!(out@ == serial_of(obj@));
    }
    out
}

} // verus!
