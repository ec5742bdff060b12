//! UTF-8 validity: the byte-level well-formedness rules, and a checker.
//!
//! String payloads on the wire must be valid UTF-8; anything else is an
//! encoding error. Validity is stated over the standard byte patterns:
//! one-byte ASCII, and two- to four-byte sequences whose leading byte fixes
//! the length and the admissible range of the first continuation byte
//! (ruling out overlong forms, surrogates, and values past U+10FFFF).

use vstd::prelude::*;

verus! {

/// A continuation byte of a multi-byte sequence.
pub open spec fn is_cont(b: u8) -> bool {
    0x80 <= b <= 0xBF
}

/// The bytes form a well-formed UTF-8 sequence.
pub closed spec fn is_utf8(s: Seq<u8>) -> bool
    decreases s.len(),
{
    if s.len() == 0 {
        true
    } else {
        let b0 = s[0];
        if b0 < 0x80 {
            is_utf8(s.skip(1))
        } else if 0xC2 <= b0 <= 0xDF {
            s.len() >= 2 && is_cont(s[1]) && is_utf8(s.skip(2))
        } else if b0 == 0xE0 {
            s.len() >= 3 && 0xA0 <= s[1] <= 0xBF && is_cont(s[2]) && is_utf8(s.skip(3))
        } else if 0xE1 <= b0 <= 0xEC || b0 == 0xEE || b0 == 0xEF {
            s.len() >= 3 && is_cont(s[1]) && is_cont(s[2]) && is_utf8(s.skip(3))
        } else if b0 == 0xED {
            s.len() >= 3 && 0x80 <= s[1] <= 0x9F && is_cont(s[2]) && is_utf8(s.skip(3))
        } else if b0 == 0xF0 {
            s.len() >= 4 && 0x90 <= s[1] <= 0xBF && is_cont(s[2]) && is_cont(s[3])
                && is_utf8(s.skip(4))
        } else if 0xF1 <= b0 <= 0xF3 {
            s.len() >= 4 && is_cont(s[1]) && is_cont(s[2]) && is_cont(s[3]) && is_utf8(s.skip(4))
        } else if b0 == 0xF4 {
            s.len() >= 4 && 0x80 <= s[1] <= 0x8F && is_cont(s[2]) && is_cont(s[3])
                && is_utf8(s.skip(4))
        } else {
            false
        }
    }
}

/// A sequence of plain ASCII bytes is valid UTF-8.
pub proof fn lemma_ascii_is_utf8(s: Seq<u8>)
    requires
        forall|i: int| 0 <= i < s.len() ==> s[i] < 0x80,
    ensures
        is_utf8(s),
    decreases s.len(),
{
    if s.len() > 0 {
        lemma_ascii_is_utf8(s.skip(1));
    }
}

/// Decides whether the bytes are well-formed UTF-8.
pub fn utf8_valid(s: &Vec<u8>) -> (r: bool)
    ensures
        r == is_utf8(s@),
{
    let n = s.len();
    let mut pos: usize = 0;
    assert(s@.skip(0) =~= s@);
    while pos < n
        invariant
            pos <= n,
            n == s@.len(),
            is_utf8(s@) == is_utf8(s@.skip(pos as int)),
        decreases n - pos,
    {
        let ghost rest = s@.skip(pos as int);
        let b0 = s[pos];
        let step: usize = if b0 < 0x80 {
            1
        } else if 0xC2 <= b0 && b0 <= 0xDF {
            if n - pos < 2 || !(0x80 <= s[pos + 1] && s[pos + 1] <= 0xBF) {
                return false;
            }
            2
        } else if b0 == 0xE0 {
            if n - pos < 3 || !(0xA0 <= s[pos + 1] && s[pos + 1] <= 0xBF)
                || !(0x80 <= s[pos + 2] && s[pos + 2] <= 0xBF) {
                return false;
            }
            3
        } else if (0xE1 <= b0 && b0 <= 0xEC) || b0 == 0xEE || b0 == 0xEF {
            if n - pos < 3 || !(0x80 <= s[pos + 1] && s[pos + 1] <= 0xBF)
                || !(0x80 <= s[pos + 2] && s[pos + 2] <= 0xBF) {
                return false;
            }
            3
        } else if b0 == 0xED {
            if n - pos < 3 || !(0x80 <= s[pos + 1] && s[pos + 1] <= 0x9F)
                || !(0x80 <= s[pos + 2] && s[pos + 2] <= 0xBF) {
                return false;
            }
            3
        } else if b0 == 0xF0 {
            if n - pos < 4 || !(0x90 <= s[pos + 1] && s[pos + 1] <= 0xBF)
                || !(0x80 <= s[pos + 2] && s[pos + 2] <= 0xBF)
                || !(0x80 <= s[pos + 3] && s[pos + 3] <= 0xBF) {
                return false;
            }
            4
        } else if 0xF1 <= b0 && b0 <= 0xF3 {
            if n - pos < 4 || !(0x80 <= s[pos + 1] && s[pos + 1] <= 0xBF)
                || !(0x80 <= s[pos + 2] && s[pos + 2] <= 0xBF)
                || !(0x80 <= s[pos + 3] && s[pos + 3] <= 0xBF) {
                return false;
            }
            4
        } else if b0 == 0xF4 {
            if n - pos < 4 || !(0x80 <= s[pos + 1] && s[pos + 1] <= 0x8F)
                || !(0x80 <= s[pos + 2] && s[pos + 2] <= 0xBF)
                || !(0x80 <= s[pos + 3] && s[pos + 3] <= 0xBF) {
                return false;
            }
            4
        } else {
            assert(!is_utf8(rest));
            return false;
        };
        proof {
            assert(rest.skip(step as int) =~= s@.skip(pos + step as int));
            assert(is_utf8(rest) == is_utf8(rest.skip(step as int)));
        }
        pos = pos + step;
    }
    proof {
        assert(s@.skip(pos as int) =~= Seq::<u8>::empty());
    }
    true
}

} // verus!
