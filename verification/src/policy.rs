//! The redaction policy: case-insensitive substring matching of marker
//! lists against a record's `function` and `file` fields.
//!
//! A record is secret when any file marker occurs in its lowercased `file`
//! field, or any function marker occurs in its lowercased `function` field.
//! The `name` field never takes part in the decision. Lowercasing is
//! ASCII-only, applied byte by byte, which on UTF-8 text coincides with
//! ASCII-case-insensitive comparison.

use vstd::prelude::*;

verus! {

/// ASCII lowercase of one byte.
pub open spec fn to_lower(b: u8) -> u8 {
    if 0x41 <= b <= 0x5A {
        (b + 0x20) as u8
    } else {
        b
    }
}

/// ASCII lowercase of a byte sequence.
pub open spec fn lower(s: Seq<u8>) -> Seq<u8> {
    Seq::new(s.len(), |i: int| to_lower(s[i]))
}

/// `needle` occurs contiguously inside `hay`.
pub open spec fn contains_sub(hay: Seq<u8>, needle: Seq<u8>) -> bool {
    exists|i: int|
        0 <= i <= hay.len() - needle.len() && #[trigger] hay.subrange(i, i + needle.len() as int)
            == needle
}

/// Some marker of the list occurs, case-insensitively, in the field.
pub open spec fn hits(field: Seq<u8>, markers: Seq<Seq<u8>>) -> bool {
    exists|j: int| 0 <= j < markers.len() && contains_sub(lower(field), lower(markers[j]))
}

/// The redaction decision for one record: a file marker occurs in `file`,
/// or a function marker occurs in `function`.
pub open spec fn is_secret(
    function: Seq<u8>,
    file: Seq<u8>,
    file_markers: Seq<Seq<u8>>,
    fn_markers: Seq<Seq<u8>>,
) -> bool {
    hits(file, file_markers) || hits(function, fn_markers)
}

/// Returns the ASCII-lowercased copy of `s`.
pub fn lowercase(s: &Vec<u8>) -> (r: Vec<u8>)
    ensures
        r@ == lower(s@),
{
    let n = s.len();
    let mut out: Vec<u8> = Vec::new();
    let mut i: usize = 0;
    while i < n
        invariant
            i <= n,
            n == s@.len(),
            out@ == lower(s@).subrange(0, i as int),
        decreases n - i,
    {
        let b = s[i];
        if 0x41 <= b && b <= 0x5A {
            out.push(b + 0x20);
        } else {
            out.push(b);
        }
        assert(out@ =~= lower(s@).subrange(0, i + 1));
        i = i + 1;
    }
    assert(out@ =~= lower(s@));
    out
}

/// Decides whether `needle` occurs contiguously in `hay`.
pub fn find_sub(hay: &Vec<u8>, needle: &Vec<u8>) -> (r: bool)
    ensures
        r == contains_sub(hay@, needle@),
{
    let hn = hay.len();
    let nn = needle.len();
    if nn > hn {
        assert(!contains_sub(hay@, needle@));
        return false;
    }
    let mut i: usize = 0;
    while i <= hn - nn
        invariant
            nn <= hn,
            hn == hay@.len(),
            nn == needle@.len(),
            i <= hn - nn + 1,
            forall|k: int|
                0 <= k < i ==> #[trigger] hay@.subrange(k, k + needle@.len() as int) != needle@,
        decreases hn - nn + 1 - i,
    {
        let mut j: usize = 0;
        let mut matched: bool = true;
        while j < nn
            invariant
                nn <= hn,
                hn == hay@.len(),
                nn == needle@.len(),
                i <= hn - nn,
                j <= nn,
                matched ==> hay@.subrange(i as int, i + j as int) == needle@.subrange(
                    0,
                    j as int,
                ),
                !matched ==> nn >= 1,
                !matched ==> hay@.subrange(i as int, i + needle@.len() as int) != needle@,
            decreases nn - j,
        {
            if hay[i + j] != needle[j] {
                proof {
                    assert(hay@.subrange(i as int, i + needle@.len() as int)[j as int]
                        == hay@[i + j]);
                }
                matched = false;
                j = nn;
            } else {
                proof {
                    if matched {
                        assert(hay@.subrange(i as int, i + j + 1) =~= hay@.subrange(
                            i as int,
                            i + j as int,
                        ).push(hay@[i + j]));
                        assert(needle@.subrange(0, j + 1) =~= needle@.subrange(0, j as int).push(
                            needle@[j as int],
                        ));
                    }
                }
                j = j + 1;
            }
        }
        if matched {
            proof {
                assert(needle@.subrange(0, needle@.len() as int) =~= needle@);
                assert(hay@.subrange(i as int, i + needle@.len() as int) == needle@);
            }
            return true;
        }
        assert(nn >= 1);
        i = i + 1;
    }
    proof {
        assert forall|k: int| 0 <= k <= hay@.len() - needle@.len() implies #[trigger] hay@
            .subrange(k, k + needle@.len() as int) != needle@ by {
            assert(k < i);
        }
    }
    false
}

/// Decides whether any marker occurs, case-insensitively, in the field.
pub fn field_matches(field: &Vec<u8>, markers: &Vec<Vec<u8>>) -> (r: bool)
    ensures
        r == hits(field@, markers.deep_view()),
{
    let field_lower = lowercase(field);
    let m = markers.len();
    let mut j: usize = 0;
    while j < m
        invariant
            j <= m,
            m == markers@.len(),
            field_lower@ == lower(field@),
            forall|k: int|
                0 <= k < j ==> !contains_sub(lower(field@), lower(#[trigger] markers.deep_view()[k])),
        decreases m - j,
    {
        let marker_lower = lowercase(&markers[j]);
        proof {
            assert(markers.deep_view()[j as int] == markers@[j as int]@);
        }
        if find_sub(&field_lower, &marker_lower) {
            return true;
        }
        j = j + 1;
    }
    false
}

} // verus!
