//! The source-location record: its wire form, codec, and redacted variant.
//!
//! A record is three length-prefixed UTF-8 strings (`name`, `function`,
//! `file`) followed by two opaque 4-byte little-endian integers (`line`,
//! `color`). Decoding consumes exactly the record's wire size; a redacted
//! record keeps `line` and `color` and replaces all three strings with the
//! fixed token.

use vstd::prelude::*;
use crate::RedactError;
use crate::policy::is_secret;
use crate::utf8::is_utf8;
use crate::wire::{
    Parsed, le32, le32_bytes, lenpfx, lemma_parse_str_exact, lemma_parse_str_of_lenpfx,
    lemma_le32_of_bytes, lemma_le32_bytes_of_le32, parse_str, read_lenpfx_string, read_u32_le,
    write_lenpfx_string, write_u32_le,
};

verus! {

broadcast use crate::wire::lemma_le32_bytes_len, crate::wire::lemma_lenpfx_len;

/// One entry of the source-location table.
pub struct SrclocRecord {
    /// Display name; blanked on redaction, never matched against markers.
    pub name: Vec<u8>,
    /// Function name; matched against the function markers.
    pub function: Vec<u8>,
    /// Source file path; matched against the file markers.
    pub file: Vec<u8>,
    /// Line number; opaque, copied through unchanged.
    pub line: u32,
    /// Display color; opaque, copied through unchanged.
    pub color: u32,
}

/// Mathematical model of a record.
pub struct RecModel {
    pub name: Seq<u8>,
    pub function: Seq<u8>,
    pub file: Seq<u8>,
    pub line: u32,
    pub color: u32,
}

impl View for SrclocRecord {
    type V = RecModel;

    open spec fn view(&self) -> RecModel {
        RecModel {
            name: self.name@,
            function: self.function@,
            file: self.file@,
            line: self.line,
            color: self.color,
        }
    }
}

/// A record that can stand on the wire: string lengths fit the 4-byte
/// prefix and the payloads are valid UTF-8.
pub open spec fn rec_wf(r: RecModel) -> bool {
    &&& r.name.len() <= u32::MAX
    &&& r.function.len() <= u32::MAX
    &&& r.file.len() <= u32::MAX
    &&& is_utf8(r.name)
    &&& is_utf8(r.function)
    &&& is_utf8(r.file)
}

/// The wire form of a record.
pub open spec fn enc_rec(r: RecModel) -> Seq<u8> {
    lenpfx(r.name) + lenpfx(r.function) + lenpfx(r.file) + le32_bytes(r.line as int) + le32_bytes(
        r.color as int,
    )
}

/// The fixed token written over the string fields of a secret record.
pub open spec fn token() -> Seq<u8> {
    seq![0x3Cu8, 0x72u8, 0x65u8, 0x64u8, 0x61u8, 0x63u8, 0x74u8, 0x65u8, 0x64u8, 0x3Eu8]
}

/// The token, as bytes: `<redacted>`.
pub fn redaction_token() -> (r: Vec<u8>)
    ensures
        r@ == token(),
{
    let mut v: Vec<u8> = Vec::new();
    v.push(0x3C);
    v.push(0x72);
    v.push(0x65);
    v.push(0x64);
    v.push(0x61);
    v.push(0x63);
    v.push(0x74);
    v.push(0x65);
    v.push(0x64);
    v.push(0x3E);
    assert(v@ =~= token());
    v
}

/// The token is short and is plain ASCII, hence valid UTF-8.
pub proof fn lemma_token_wf()
    ensures
        token().len() == 10,
        is_utf8(token()),
{
    crate::utf8::lemma_ascii_is_utf8(token());
}

/// What one record becomes on output: fully redacted when it is secret
/// under the policy, untouched otherwise.
pub open spec fn redact_rec(
    r: RecModel,
    file_markers: Seq<Seq<u8>>,
    fn_markers: Seq<Seq<u8>>,
) -> RecModel {
    if is_secret(r.function, r.file, file_markers, fn_markers) {
        RecModel { name: token(), function: token(), file: token(), line: r.line, color: r.color }
    } else {
        r
    }
}

/// Selective redaction: a secret record has all three string fields
/// replaced by the token and its `line` and `color` kept; a record that is
/// not secret passes through entirely unchanged.
pub proof fn lemma_selective_redaction(
    r: RecModel,
    file_markers: Seq<Seq<u8>>,
    fn_markers: Seq<Seq<u8>>,
)
    ensures
        is_secret(r.function, r.file, file_markers, fn_markers) ==> redact_rec(
            r,
            file_markers,
            fn_markers,
        ) == (RecModel {
            name: token(),
            function: token(),
            file: token(),
            line: r.line,
            color: r.color,
        }),
        !is_secret(r.function, r.file, file_markers, fn_markers) ==> redact_rec(
            r,
            file_markers,
            fn_markers,
        ) == r,
        redact_rec(r, file_markers, fn_markers).line == r.line,
        redact_rec(r, file_markers, fn_markers).color == r.color,
{
}

/// The result of redaction is always well-formed.
pub proof fn lemma_redact_rec_wf(
    r: RecModel,
    file_markers: Seq<Seq<u8>>,
    fn_markers: Seq<Seq<u8>>,
)
    requires
        rec_wf(r),
    ensures
        rec_wf(redact_rec(r, file_markers, fn_markers)),
{
    lemma_token_wf();
}

/// Parse of one record from the front of `s`.
#[verifier::opaque]
pub open spec fn parse_rec(s: Seq<u8>) -> Parsed<RecModel> {
    match parse_str(s) {
        Parsed::Fail(e) => Parsed::Fail(e),
        Parsed::Val(name, k1) => match parse_str(s.skip(k1)) {
            Parsed::Fail(e) => Parsed::Fail(e),
            Parsed::Val(function, k2) => match parse_str(s.skip(k1 + k2)) {
                Parsed::Fail(e) => Parsed::Fail(e),
                Parsed::Val(file, k3) => {
                    let k = k1 + k2 + k3;
                    if s.len() < k + 8 {
                        Parsed::Fail(RedactError::TruncatedInput)
                    } else {
                        Parsed::Val(
                            RecModel {
                                name,
                                function,
                                file,
                                line: le32(s.subrange(k, k + 4)) as u32,
                                color: le32(s.subrange(k + 4, k + 8)) as u32,
                            },
                            k + 8,
                        )
                    }
                },
            },
        },
    }
}

/// A successful record parse yields a well-formed record and consumes
/// exactly its wire form: the bytes parsed re-encode to themselves.
#[verifier::rlimit(100)]
pub proof fn lemma_parse_rec_exact(s: Seq<u8>)
    requires
        parse_rec(s) matches Parsed::Val(r, k),
    ensures
        parse_rec(s) matches Parsed::Val(r, k) ==> {
            &&& rec_wf(r)
            &&& 20 <= k <= s.len()
            &&& k == enc_rec(r).len()
            &&& enc_rec(r) == s.subrange(0, k)
        },
{
    reveal(parse_rec);
    match parse_str(s) {
        Parsed::Fail(_) => {},
        Parsed::Val(name, k1) => {
            lemma_parse_str_exact(s);
            match parse_str(s.skip(k1)) {
                Parsed::Fail(_) => {},
                Parsed::Val(function, k2) => {
                    lemma_parse_str_exact(s.skip(k1));
                    match parse_str(s.skip(k1 + k2)) {
                        Parsed::Fail(_) => {},
                        Parsed::Val(file, k3) => {
                            lemma_parse_str_exact(s.skip(k1 + k2));
                            let k = k1 + k2 + k3;
                            if s.len() >= k + 8 {
                                let r = RecModel {
                                    name,
                                    function,
                                    file,
                                    line: le32(s.subrange(k, k + 4)) as u32,
                                    color: le32(s.subrange(k + 4, k + 8)) as u32,
                                };
                                assert(parse_rec(s) == Parsed::Val(r, k + 8));
                                assert(lenpfx(name) == s.subrange(0, k1));
                                assert(s.skip(k1).subrange(0, k2) =~= s.subrange(k1, k1 + k2));
                                assert(s.skip(k1 + k2).subrange(0, k3) =~= s.subrange(k1 + k2, k));
                                lemma_le32_bytes_of_le32(s.subrange(k, k + 4));
                                lemma_le32_bytes_of_le32(s.subrange(k + 4, k + 8));
                                assert(le32_bytes(r.line as int) == s.subrange(k, k + 4));
                                assert(le32_bytes(r.color as int) == s.subrange(k + 4, k + 8));
                                assert(enc_rec(r) =~= s.subrange(0, k + 8));
                            }
                        },
                    }
                },
            }
        },
    }
}

/// Dropping a concatenation's first part leaves its second.
pub proof fn lemma_drop_front(a: Seq<u8>, b: Seq<u8>)
    ensures
        (a + b).skip(a.len() as int) == b,
{
    assert((a + b).skip(a.len() as int) =~= b);
}

/// Two skips in a row are one skip of the summed amount.
pub proof fn lemma_skip_skip(s: Seq<u8>, a: int, b: int)
    requires
        0 <= a,
        0 <= b,
        a + b <= s.len(),
    ensures
        s.skip(a).skip(b) == s.skip(a + b),
{
    assert(s.skip(a).skip(b) =~= s.skip(a + b));
}

/// A subrange taken past a skip is a subrange of the original.
pub proof fn lemma_subrange_of_skip(s: Seq<u8>, k: int, a: int, b: int)
    requires
        0 <= k,
        0 <= a <= b,
        k + b <= s.len(),
    ensures
        s.subrange(k + a, k + b) == s.skip(k).subrange(a, b),
{
    assert(s.subrange(k + a, k + b) =~= s.skip(k).subrange(a, b));
}

/// The wire form of a record, regrouped so that each field heads its own
/// remainder of the stream.
#[verifier::rlimit(100)]
pub proof fn lemma_enc_shape(r: RecModel, rest: Seq<u8>)
    ensures
        enc_rec(r) + rest == lenpfx(r.name) + (lenpfx(r.function) + (lenpfx(r.file) + (le32_bytes(
            r.line as int,
        ) + le32_bytes(r.color as int) + rest))),
{
    assert(enc_rec(r) + rest =~= lenpfx(r.name) + (lenpfx(r.function) + (lenpfx(r.file) + (
    le32_bytes(r.line as int) + le32_bytes(r.color as int) + rest))));
}

/// The two fixed-width integers at the head of a byte stream.
pub proof fn lemma_le_pair_front(x: u32, y: u32, rest: Seq<u8>)
    ensures
        (le32_bytes(x as int) + le32_bytes(y as int) + rest).subrange(0, 4) == le32_bytes(
            x as int,
        ),
        (le32_bytes(x as int) + le32_bytes(y as int) + rest).subrange(4, 8) == le32_bytes(
            y as int,
        ),
        le32(le32_bytes(x as int)) == x,
        le32(le32_bytes(y as int)) == y,
        (le32_bytes(x as int) + le32_bytes(y as int) + rest).len() == 8 + rest.len(),
{
    let t = le32_bytes(x as int) + le32_bytes(y as int) + rest;
    assert(t.subrange(0, 4) =~= le32_bytes(x as int));
    assert(t.subrange(4, 8) =~= le32_bytes(y as int));
    lemma_le32_of_bytes(x);
    lemma_le32_of_bytes(y);
}

/// The three string fields of an encoded record parse back in order,
/// leaving the two fixed-width integers and the remainder of the stream.
#[verifier::rlimit(100)]
pub proof fn lemma_parse_rec_of_enc_strings(r: RecModel, rest: Seq<u8>)
    requires
        rec_wf(r),
    ensures
        enc_rec(r).len() == 20 + r.name.len() + r.function.len() + r.file.len(),
        parse_str(enc_rec(r) + rest) == Parsed::Val(r.name, 4 + r.name.len() as int),
        parse_str((enc_rec(r) + rest).skip(4 + r.name.len() as int)) == Parsed::Val(
            r.function,
            4 + r.function.len() as int,
        ),
        parse_str((enc_rec(r) + rest).skip(8 + r.name.len() + r.function.len() as int)) == Parsed::Val(
            r.file,
            4 + r.file.len() as int,
        ),
        (enc_rec(r) + rest).skip(12 + r.name.len() + r.function.len() + r.file.len() as int)
            == le32_bytes(r.line as int) + le32_bytes(r.color as int) + rest,
{
    let k1 = 4 + r.name.len() as int;
    let k2 = 4 + r.function.len() as int;
    let k3 = 4 + r.file.len() as int;
    let tail3 = le32_bytes(r.line as int) + le32_bytes(r.color as int) + rest;
    let tail2 = lenpfx(r.file) + tail3;
    let tail1 = lenpfx(r.function) + tail2;
    let s = enc_rec(r) + rest;
    lemma_enc_shape(r, rest);
    assert(s == lenpfx(r.name) + tail1);
    lemma_parse_str_of_lenpfx(r.name, tail1);
    lemma_drop_front(lenpfx(r.name), tail1);
    assert(s.skip(k1) == tail1);
    lemma_parse_str_of_lenpfx(r.function, tail2);
    lemma_drop_front(lenpfx(r.function), tail2);
    lemma_skip_skip(s, k1, k2);
    assert(s.skip(k1 + k2) == tail2);
    lemma_parse_str_of_lenpfx(r.file, tail3);
    lemma_drop_front(lenpfx(r.file), tail3);
    lemma_skip_skip(s, k1 + k2, k3);
    assert(s.skip(k1 + k2 + k3) == tail3);
}

/// Parsing the wire form of a well-formed record gives the record back.
#[verifier::rlimit(100)]
pub proof fn lemma_parse_rec_of_enc(r: RecModel, rest: Seq<u8>)
    requires
        rec_wf(r),
    ensures
        parse_rec(enc_rec(r) + rest) == Parsed::Val(r, enc_rec(r).len() as int),
{
    reveal(parse_rec);
    let k1 = 4 + r.name.len() as int;
    let k2 = 4 + r.function.len() as int;
    let k3 = 4 + r.file.len() as int;
    let k = k1 + k2 + k3;
    let s = enc_rec(r) + rest;
    lemma_parse_rec_of_enc_strings(r, rest);
    lemma_le_pair_front(r.line, r.color, rest);
    lemma_subrange_of_skip(s, k, 0, 4);
    lemma_subrange_of_skip(s, k, 4, 8);
    assert(le32(s.subrange(k, k + 4)) as u32 == r.line);
    assert(le32(s.subrange(k + 4, k + 8)) as u32 == r.color);
    assert(s.len() >= k + 8);
}

/// Reads one record at `pos`, returning it and the position just past it.
pub fn decode_record(data: &Vec<u8>, pos: usize) -> (r: Result<
    (SrclocRecord, usize),
    RedactError,
>)
    requires
        pos <= data@.len(),
    ensures
        (parse_rec(data@.skip(pos as int)) matches Parsed::Val(m, k) ==> r matches Ok(p)
            && p.0@ == m && p.1 == pos + k),
        (parse_rec(data@.skip(pos as int)) matches Parsed::Fail(e) ==> r == Err::<
            (SrclocRecord, usize),
            RedactError,
        >(e)),
{
    proof {
        reveal(parse_rec);
    }
    let ghost rest = data@.skip(pos as int);
    let (name, pos1) = match read_lenpfx_string(data, pos) {
        Ok(p) => p,
        Err(e) => {
            return Err(e);
        },
    };
    proof {
        assert(rest.skip(pos1 - pos) =~= data@.skip(pos1 as int));
    }
    let (function, pos2) = match read_lenpfx_string(data, pos1) {
        Ok(p) => p,
        Err(e) => {
            return Err(e);
        },
    };
    proof {
        assert(rest.skip(pos2 - pos) =~= data@.skip(pos2 as int));
    }
    let (file, pos3) = match read_lenpfx_string(data, pos2) {
        Ok(p) => p,
        Err(e) => {
            return Err(e);
        },
    };
    let (line, pos4) = match read_u32_le(data, pos3) {
        Ok(p) => p,
        Err(e) => {
            proof {
                assert(rest.len() < pos3 - pos + 8);
            }
            return Err(e);
        },
    };
    let (color, pos5) = match read_u32_le(data, pos4) {
        Ok(p) => p,
        Err(e) => {
            proof {
                assert(rest.len() < pos3 - pos + 8);
            }
            return Err(e);
        },
    };
    proof {
        assert(rest.subrange(pos3 - pos, pos3 - pos + 4) =~= data@.subrange(
            pos3 as int,
            pos3 + 4,
        ));
        assert(rest.subrange(pos3 - pos + 4, pos3 - pos + 8) =~= data@.subrange(
            pos4 as int,
            pos4 + 4,
        ));
        lemma_le32_bytes_of_le32(data@.subrange(pos3 as int, pos3 + 4));
        lemma_le32_bytes_of_le32(data@.subrange(pos4 as int, pos4 + 4));
    }
    Ok((SrclocRecord { name, function, file, line, color }, pos5))
}

/// Appends the wire form of `rec`.
pub fn encode_record(out: &mut Vec<u8>, rec: &SrclocRecord)
    requires
        rec_wf(rec@),
    ensures
        final(out)@ == old(out)@ + enc_rec(rec@),
{
    write_lenpfx_string(out, &rec.name);
    write_lenpfx_string(out, &rec.function);
    write_lenpfx_string(out, &rec.file);
    write_u32_le(out, rec.line);
    write_u32_le(out, rec.color);
    assert(out@ =~= old(out)@ + enc_rec(rec@));
}

/// Decides the policy for `rec` and returns what it becomes on output.
/// The returned flag says whether the record was secret.
pub fn apply_policy(
    rec: SrclocRecord,
    file_markers: &Vec<Vec<u8>>,
    fn_markers: &Vec<Vec<u8>>,
) -> (r: (SrclocRecord, bool))
    ensures
        r.0@ == redact_rec(rec@, file_markers.deep_view(), fn_markers.deep_view()),
        r.1 == is_secret(rec@.function, rec@.file, file_markers.deep_view(), fn_markers.deep_view()),
{
    let secret = crate::policy::field_matches(&rec.file, file_markers) || crate::policy::field_matches(
        &rec.function,
        fn_markers,
    );
    if secret {
        let out = SrclocRecord {
            name: redaction_token(),
            function: redaction_token(),
            file: redaction_token(),
            line: rec.line,
            color: rec.color,
        };
        (out, true)
    } else {
        (rec, false)
    }
}

} // verus!
