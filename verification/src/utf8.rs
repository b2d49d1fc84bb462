//! UTF-8 validity of a byte sequence, stated over the encoding's byte
//! ranges, with a verified checker. Object headers must be valid UTF-8
//! text before their fields are interpreted.

use vstd::prelude::*;

verus! {

/// A UTF-8 continuation byte.
pub open spec fn is_cont(b: u8) -> bool {
    128 <= b && b <= 191
}

/// Whether `s` is a well-formed UTF-8 encoding: a sequence of one- to
/// four-byte scalar encodings, excluding overlong forms, surrogates and
/// values above U+10FFFF.
pub open spec fn utf8_valid(s: Seq<u8>) -> bool
    decreases s.len(),
{
    if s.len() == 0 {
        true
    } else {
        let b0 = s[0];
        if b0 < 128 {
            utf8_valid(s.skip(1))
        } else if 194 <= b0 && b0 <= 223 {
            if s.len() < 2 {
                false
            } else {
                is_cont(s[1]) && utf8_valid(s.skip(2))
            }
        } else if b0 == 224 {
            if s.len() < 3 {
                false
            } else {
                160 <= s[1] && s[1] <= 191 && is_cont(s[2]) && utf8_valid(s.skip(3))
            }
        } else if (225 <= b0 && b0 <= 236) || b0 == 238 || b0 == 239 {
            if s.len() < 3 {
                false
            } else {
                is_cont(s[1]) && is_cont(s[2]) && utf8_valid(s.skip(3))
            }
        } else if b0 == 237 {
            if s.len() < 3 {
                false
            } else {
                128 <= s[1] && s[1] <= 159 && is_cont(s[2]) && utf8_valid(s.skip(3))
            }
        } else if b0 == 240 {
            if s.len() < 4 {
                false
            } else {
                144 <= s[1] && s[1] <= 191 && is_cont(s[2]) && is_cont(s[3])
                    && utf8_valid(s.skip(4))
            }
        } else if 241 <= b0 && b0 <= 243 {
            if s.len() < 4 {
                false
            } else {
                is_cont(s[1]) && is_cont(s[2]) && is_cont(s[3]) && utf8_valid(s.skip(4))
            }
        } else if b0 == 244 {
            if s.len() < 4 {
                false
            } else {
                128 <= s[1] && s[1] <= 143 && is_cont(s[2]) && is_cont(s[3])
                    && utf8_valid(s.skip(4))
            }
        } else {
            false
        }
    }
}

/// Pure ASCII is valid UTF-8.
pub proof fn lemma_ascii_utf8(s: Seq<u8>)
    requires
        forall|i: int| 0 <= i < s.len() ==> s[i] < 128,
    ensures
        utf8_valid(s),
    decreases s.len(),
{
    if s.len() > 0 {
        assert(forall|i: int| 0 <= i < s.skip(1).len() ==> s.skip(1)[i] == s[i + 1]);
        lemma_ascii_utf8(s.skip(1));
    }
}

/// Checks that the first `end` bytes of `bytes` are valid UTF-8.
pub fn check_utf8_prefix(bytes: &[u8], end: usize) -> (r: bool)
    requires
        end <= bytes@.len(),
    ensures
        r == utf8_valid(bytes@.take(end as int)),
{
    let ghost full = bytes@.take(end as int);
    let mut i: usize = 0;
    loop
        invariant
            i <= end,
            end <= bytes@.len(),
            full == bytes@.take(end as int),
            utf8_valid(full) == utf8_valid(bytes@.subrange(i as int, end as int)),
        decreases end - i,
    {
        let ghost t = bytes@.subrange(i as int, end as int);
        if i >= end {
            proof {
                assert(t =~= Seq::<u8>::empty());
            }
            return true;
        }
        proof {
            assert(t[0] == bytes@[i as int]);
        }
        let rem = end - i;
        let b0 = bytes[i];
        if b0 < 128 {
            proof {
                assert(t.skip(1) =~= bytes@.subrange(i + 1 as int, end as int));
            }
            i = i + 1;
        } else if 194 <= b0 && b0 <= 223 {
            if rem < 2 {
                return false;
            }
            let b1 = bytes[i + 1];
            proof {
                assert(t[1] == bytes@[i + 1]);
            }
            if !(128 <= b1 && b1 <= 191) {
                return false;
            }
            proof {
                assert(t.skip(2) =~= bytes@.subrange(i + 2 as int, end as int));
            }
            i = i + 2;
        } else if 224 <= b0 && b0 <= 239 {
            if rem < 3 {
                return false;
            }
            let b1 = bytes[i + 1];
            let b2 = bytes[i + 2];
            proof {
                assert(t[1] == bytes@[i + 1]);
                assert(t[2] == bytes@[i + 2]);
            }
            let lo1: u8 = if b0 == 224 {
                160
            } else {
                128
            };
            let hi1: u8 = if b0 == 237 {
                159
            } else {
                191
            };
            if !(lo1 <= b1 && b1 <= hi1) {
                return false;
            }
            if !(128 <= b2 && b2 <= 191) {
                return false;
            }
            proof {
                assert(t.skip(3) =~= bytes@.subrange(i + 3 as int, end as int));
            }
            i = i + 3;
        } else if 240 <= b0 && b0 <= 244 {
            if rem < 4 {
                return false;
            }
            let b1 = bytes[i + 1];
            let b2 = bytes[i + 2];
            let b3 = bytes[i + 3];
            proof {
                assert(t[1] == bytes@[i + 1]);
                assert(t[2] == bytes@[i + 2]);
                assert(t[3] == bytes@[i + 3]);
            }
            let lo1: u8 = if b0 == 240 {
                144
            } else {
                128
            };
            let hi1: u8 = if b0 == 244 {
                143
            } else {
                191
            };
            if !(lo1 <= b1 && b1 <= hi1) {
                return false;
            }
            if !(128 <= b2 && b2 <= 191) {
                return false;
            }
            if !(128 <= b3 && b3 <= 191) {
                return false;
            }
            proof {
                assert(t.skip(4) =~= bytes@.subrange(i + 4 as int, end as int));
            }
            i = i + 4;
        } else {
            return false;
        }
    }
}

} // verus!
