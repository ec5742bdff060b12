//! The whole transform: header validation, table redaction, tail copy.
//!
//! The input is a header of 1200 bytes (signature, version, opaque
//! payload), a 4-byte record count, that many source-location records, and
//! an opaque tail. The output keeps every byte except the records that the
//! policy marks secret, which are re-encoded with their string fields
//! replaced by the token. A dry run decodes and decides exactly as a real
//! run does but produces no output bytes; the list of redacted function
//! names is returned either way, in table order.

use vstd::prelude::*;
use crate::RedactError;
use crate::policy::is_secret;
use crate::record::{
    RecModel, apply_policy, decode_record, enc_rec, encode_record,
    lemma_parse_rec_exact, lemma_parse_rec_of_enc, lemma_redact_rec_wf, lemma_skip_skip,
    parse_rec, redact_rec, token,
};
use crate::wire::{Parsed, append_bytes, le32, le64, read_u32_le, read_u64_le};

verus! {

broadcast use crate::wire::lemma_le32_bytes_len, crate::wire::lemma_lenpfx_len;

/// Size of the fixed header block, in bytes.
pub const HEADER_SIZE: usize = 1200;

/// The magic signature at the start of the header.
pub const FILE_SIGNATURE: u64 = 0x6D64796361727475;

/// The single supported format version.
pub const FILE_VERSION: u32 = 2;

/// What the transform makes of an input: the full output byte stream and
/// the original function names of the redacted records, or the first error.
pub enum Outcome {
    Fail(RedactError),
    Done { out: Seq<u8>, names: Seq<Seq<u8>> },
}

/// Transform of the record table: `n` records parsed from the front of
/// `s`, each re-encoded as the policy directs. A successful value carries
/// the output bytes of the table, the redacted names in table order, and
/// the number of input bytes the table occupied.
#[verifier::opaque]
pub open spec fn spec_table(
    s: Seq<u8>,
    n: nat,
    file_markers: Seq<Seq<u8>>,
    fn_markers: Seq<Seq<u8>>,
) -> Parsed<(Seq<u8>, Seq<Seq<u8>>)>
    decreases n,
{
    if n == 0 {
        Parsed::Val((Seq::<u8>::empty(), Seq::<Seq<u8>>::empty()), 0)
    } else {
        match parse_rec(s) {
            Parsed::Fail(e) => Parsed::Fail(e),
            Parsed::Val(r, k) => match spec_table(
                s.skip(k),
                (n - 1) as nat,
                file_markers,
                fn_markers,
            ) {
                Parsed::Fail(e) => Parsed::Fail(e),
                Parsed::Val(rest_out, used) => {
                    let out = enc_rec(redact_rec(r, file_markers, fn_markers)) + rest_out.0;
                    let names = if is_secret(r.function, r.file, file_markers, fn_markers) {
                        seq![r.function] + rest_out.1
                    } else {
                        rest_out.1
                    };
                    Parsed::Val((out, names), k + used)
                },
            },
        }
    }
}

/// Transform of a whole input stream. The output is the header and count
/// verbatim, then the transformed table, then the tail verbatim.
pub open spec fn spec_process(
    input: Seq<u8>,
    file_markers: Seq<Seq<u8>>,
    fn_markers: Seq<Seq<u8>>,
) -> Outcome {
    if input.len() < HEADER_SIZE {
        Outcome::Fail(RedactError::TruncatedInput)
    } else if le64(input.subrange(0, 8)) != FILE_SIGNATURE {
        Outcome::Fail(RedactError::BadSignature)
    } else if le32(input.subrange(8, 12)) != FILE_VERSION {
        Outcome::Fail(RedactError::UnsupportedVersion)
    } else if input.len() < HEADER_SIZE + 4 {
        Outcome::Fail(RedactError::TruncatedInput)
    } else {
        let n = le32(input.subrange(1200, 1204));
        match spec_table(input.skip(1204), n as nat, file_markers, fn_markers) {
            Parsed::Fail(e) => Outcome::Fail(e),
            Parsed::Val(table_out, used) => Outcome::Done {
                out: input.subrange(0, 1204) + table_out.0 + input.skip(1204 + used),
                names: table_out.1,
            },
        }
    }
}

/// Folds an already-emitted prefix of the table into the outcome of the
/// records that are still to come.
pub open spec fn absorb(
    acc_out: Seq<u8>,
    acc_names: Seq<Seq<u8>>,
    acc_used: int,
    p: Parsed<(Seq<u8>, Seq<Seq<u8>>)>,
) -> Parsed<(Seq<u8>, Seq<Seq<u8>>)> {
    match p {
        Parsed::Fail(e) => Parsed::Fail(e),
        Parsed::Val(rest_out, used) => Parsed::Val(
            (acc_out + rest_out.0, acc_names + rest_out.1),
            acc_used + used,
        ),
    }
}

/// One step of the table transform: consuming the record at the front of
/// `s` moves its output from the pending part into the accumulator.
pub proof fn lemma_absorb_step(
    s: Seq<u8>,
    n: nat,
    fm: Seq<Seq<u8>>,
    km: Seq<Seq<u8>>,
    acc_out: Seq<u8>,
    acc_names: Seq<Seq<u8>>,
    acc_used: int,
    r: RecModel,
    k: int,
)
    requires
        n > 0,
        parse_rec(s) == Parsed::Val(r, k),
    ensures
        absorb(acc_out, acc_names, acc_used, spec_table(s, n, fm, km)) == absorb(
            acc_out + enc_rec(redact_rec(r, fm, km)),
            acc_names + (if is_secret(r.function, r.file, fm, km) {
                seq![r.function]
            } else {
                Seq::<Seq<u8>>::empty()
            }),
            acc_used + k,
            spec_table(s.skip(k), (n - 1) as nat, fm, km),
        ),
{
    reveal(spec_table);
    match spec_table(s.skip(k), (n - 1) as nat, fm, km) {
        Parsed::Fail(_) => {},
        Parsed::Val(rest_out, used) => {
            assert(acc_out + (enc_rec(redact_rec(r, fm, km)) + rest_out.0) =~= (acc_out + enc_rec(
                redact_rec(r, fm, km),
            )) + rest_out.0);
            if is_secret(r.function, r.file, fm, km) {
                assert(acc_names + (seq![r.function] + rest_out.1) =~~= (acc_names + seq![
                    r.function,
                ]) + rest_out.1);
            } else {
                assert(acc_names + Seq::<Seq<u8>>::empty() =~~= acc_names);
            }
        },
    }
}

/// What a run returns: the output byte stream (empty in a dry run) and the
/// original function names of every redacted record, in table order.
#[derive(Debug, PartialEq, Eq)]
pub struct ProcessOutput {
    pub output: Vec<u8>,
    pub redacted_functions: Vec<Vec<u8>>,
}

/// Returns a fresh copy of the bytes.
fn copy_bytes(v: &Vec<u8>) -> (r: Vec<u8>)
    ensures
        r@ == v@,
{
    let mut out: Vec<u8> = Vec::new();
    append_bytes(&mut out, v, 0, v.len());
    assert(v@.subrange(0, v@.len() as int) =~= v@);
    out
}

/// An empty table transforms to nothing.
pub proof fn lemma_table_zero(s: Seq<u8>, fm: Seq<Seq<u8>>, km: Seq<Seq<u8>>)
    ensures
        spec_table(s, 0, fm, km) == Parsed::Val::<(Seq<u8>, Seq<Seq<u8>>)>(
            (Seq::<u8>::empty(), Seq::<Seq<u8>>::empty()),
            0,
        ),
{
    reveal(spec_table);
}

/// A table whose first record does not parse fails with that record's error.
pub proof fn lemma_table_fail(s: Seq<u8>, n: nat, fm: Seq<Seq<u8>>, km: Seq<Seq<u8>>, e: RedactError)
    requires
        n > 0,
        parse_rec(s) == Parsed::Fail::<RecModel>(e),
    ensures
        spec_table(s, n, fm, km) == Parsed::Fail::<(Seq<u8>, Seq<Seq<u8>>)>(e),
{
    reveal(spec_table);
}

/// Reads the record at `pos`, appends its output form (unless this is a
/// dry run), and records its original function name if it was secret.
/// Returns the position just past the record.
#[verifier::rlimit(100)]
fn process_one_record(
    input: &Vec<u8>,
    pos: usize,
    dry_run: bool,
    output: &mut Vec<u8>,
    names: &mut Vec<Vec<u8>>,
    file_markers: &Vec<Vec<u8>>,
    fn_markers: &Vec<Vec<u8>>,
) -> (res: Result<usize, RedactError>)
    requires
        pos <= input@.len(),
    ensures
        ({
            let fm = file_markers.deep_view();
            let km = fn_markers.deep_view();
            match parse_rec(input@.skip(pos as int)) {
                Parsed::Val(m, k) => {
                    &&& res matches Ok(np) && np == pos + k && np <= input@.len()
                    &&& !dry_run ==> final(output)@ == old(output)@ + enc_rec(
                        redact_rec(m, fm, km),
                    )
                    &&& dry_run ==> final(output)@ == old(output)@
                    &&& final(names).deep_view() == old(names).deep_view() + (if is_secret(
                        m.function,
                        m.file,
                        fm,
                        km,
                    ) {
                        seq![m.function]
                    } else {
                        Seq::<Seq<u8>>::empty()
                    })
                },
                Parsed::Fail(e) => res == Err::<usize, RedactError>(e) && final(output)@ == old(
                    output,
                )@ && final(names)@ == old(names)@,
            }
        }),
{
    let ghost fm = file_markers.deep_view();
    let ghost km = fn_markers.deep_view();
    let ghost rest = input@.skip(pos as int);
    let (rec, next_pos) = match decode_record(input, pos) {
        Ok(p) => p,
        Err(e) => {
            return Err(e);
        },
    };
    let ghost m = rec@;
    proof {
        lemma_parse_rec_exact(rest);
        lemma_redact_rec_wf(m, fm, km);
    }
    let function_name = copy_bytes(&rec.function);
    let ghost names_before = names.deep_view();
    let (out_rec, secret) = apply_policy(rec, file_markers, fn_markers);
    if secret {
        names.push(function_name);
        proof {
            assert(names.deep_view() =~~= names_before + seq![m.function]);
        }
    } else {
        proof {
            assert(names.deep_view() =~~= names_before + Seq::<Seq<u8>>::empty());
        }
    }
    if !dry_run {
        encode_record(output, &out_rec);
    }
    Ok(next_pos)
}

/// Runs the transform over one input stream.
///
/// On a valid input the result holds the output bytes (or no bytes in a
/// dry run) and the redacted function names, exactly as `spec_process`
/// states; on an invalid input it is that function's error.
#[verifier::rlimit(100)]
pub fn process(
    input: &Vec<u8>,
    dry_run: bool,
    file_markers: &Vec<Vec<u8>>,
    fn_markers: &Vec<Vec<u8>>,
) -> (r: Result<ProcessOutput, RedactError>)
    ensures
        (spec_process(input@, file_markers.deep_view(), fn_markers.deep_view()) matches
            Outcome::Done { out, names } ==> r matches Ok(p) && {
            &&& p.redacted_functions.deep_view() == names
            &&& dry_run ==> p.output@ == Seq::<u8>::empty()
            &&& !dry_run ==> p.output@ == out
        }),
        (spec_process(input@, file_markers.deep_view(), fn_markers.deep_view()) matches
            Outcome::Fail(e) ==> r == Err::<ProcessOutput, RedactError>(e)),
{
    let ghost fm = file_markers.deep_view();
    let ghost km = fn_markers.deep_view();
    if input.len() < HEADER_SIZE {
        return Err(RedactError::TruncatedInput);
    }
    let sig = match read_u64_le(input, 0) {
        Ok(p) => p.0,
        Err(e) => {
            return Err(e);
        },
    };
    if sig != FILE_SIGNATURE {
        return Err(RedactError::BadSignature);
    }
    let ver = match read_u32_le(input, 8) {
        Ok(p) => p.0,
        Err(e) => {
            return Err(e);
        },
    };
    if ver != FILE_VERSION {
        return Err(RedactError::UnsupportedVersion);
    }
    if input.len() < HEADER_SIZE + 4 {
        return Err(RedactError::TruncatedInput);
    }
    let (count, table_start) = match read_u32_le(input, HEADER_SIZE) {
        Ok(p) => p,
        Err(e) => {
            return Err(e);
        },
    };
    let ghost table = input@.skip(1204);
    let mut output: Vec<u8> = Vec::new();
    if !dry_run {
        append_bytes(&mut output, input, 0, HEADER_SIZE + 4);
    }
    let mut names: Vec<Vec<u8>> = Vec::new();
    let ghost mut table_out: Seq<u8> = Seq::<u8>::empty();
    let mut pos: usize = table_start;
    let mut i: u32 = 0;
    proof {
        assert(names.deep_view() =~~= Seq::<Seq<u8>>::empty());
        if !dry_run {
            assert(output@ =~= input@.subrange(0, 1204) + table_out);
        }
        match spec_table(table, count as nat, fm, km) {
            Parsed::Fail(_) => {},
            Parsed::Val(rest_out, used) => {
                assert(table_out + rest_out.0 =~= rest_out.0);
                assert(names.deep_view() + rest_out.1 =~~= rest_out.1);
            },
        }
        assert(spec_table(table, count as nat, fm, km) == absorb(
            table_out,
            names.deep_view(),
            0,
            spec_table(table, count as nat, fm, km),
        ));
    }
    while i < count
        invariant
            i <= count,
            1204 <= pos <= input@.len(),
            le64(input@.subrange(0, 8)) == FILE_SIGNATURE,
            le32(input@.subrange(8, 12)) == FILE_VERSION,
            count == le32(input@.subrange(1200, 1204)),
            fm == file_markers.deep_view(),
            km == fn_markers.deep_view(),
            table == input@.skip(1204),
            !dry_run ==> output@ == input@.subrange(0, 1204) + table_out,
            dry_run ==> output@ == Seq::<u8>::empty(),
            spec_table(table, count as nat, fm, km) == absorb(
                table_out,
                names.deep_view(),
                pos - 1204,
                spec_table(input@.skip(pos as int), (count - i) as nat, fm, km),
            ),
        decreases count - i,
    {
        let ghost rest = input@.skip(pos as int);
        let ghost names_before = names.deep_view();
        let ghost table_out_before = table_out;
        let next_pos = match process_one_record(
            input,
            pos,
            dry_run,
            &mut output,
            &mut names,
            file_markers,
            fn_markers,
        ) {
            Ok(np) => np,
            Err(e) => {
                proof {
                    lemma_table_fail(rest, (count - i) as nat, fm, km, e);
                }
                return Err(e);
            },
        };
        proof {
            match parse_rec(rest) {
                Parsed::Fail(_) => {
                    assert(false);
                },
                Parsed::Val(m, k) => {
                    lemma_parse_rec_exact(rest);
                    lemma_skip_skip(input@, pos as int, k);
                    table_out = table_out + enc_rec(redact_rec(m, fm, km));
                    if !dry_run {
                        assert(output@ =~= input@.subrange(0, 1204) + table_out);
                    }
                    lemma_absorb_step(
                        rest,
                        (count - i) as nat,
                        fm,
                        km,
                        table_out_before,
                        names_before,
                        pos - 1204,
                        m,
                        k,
                    );
                },
            }
        }
        pos = next_pos;
        i = i + 1;
    }
    proof {
        lemma_table_zero(input@.skip(pos as int), fm, km);
        assert(table_out + Seq::<u8>::empty() =~= table_out);
        assert(names.deep_view() + Seq::<Seq<u8>>::empty() =~~= names.deep_view());
    }
    if !dry_run {
        let tail_len = input.len() - pos;
        append_bytes(&mut output, input, pos, tail_len);
        proof {
            assert(input@.subrange(pos as int, input@.len() as int) =~= input@.skip(pos as int));
            assert((input@.subrange(0, 1204) + table_out) + input@.skip(pos as int) =~= input@
                .subrange(0, 1204) + table_out + input@.skip(pos as int));
        }
    }
    Ok(ProcessOutput { output, redacted_functions: names })
}

/// A table pass that redacts nothing reproduces its input bytes exactly.
pub proof fn lemma_table_identity(s: Seq<u8>, n: nat, fm: Seq<Seq<u8>>, km: Seq<Seq<u8>>)
    requires
        spec_table(s, n, fm, km) matches Parsed::Val(v, used) && v.1.len() == 0,
    ensures
        spec_table(s, n, fm, km) matches Parsed::Val(v, used) ==> {
            &&& 0 <= used <= s.len()
            &&& v.0 == s.subrange(0, used)
        },
    decreases n,
{
    reveal(spec_table);
    if n == 0 {
        assert(s.subrange(0, 0) =~= Seq::<u8>::empty());
    } else {
        match parse_rec(s) {
            Parsed::Fail(_) => {},
            Parsed::Val(r, k) => {
                lemma_parse_rec_exact(s);
                match spec_table(s.skip(k), (n - 1) as nat, fm, km) {
                    Parsed::Fail(_) => {},
                    Parsed::Val(ro, u) => {
                        assert(!is_secret(r.function, r.file, fm, km));
                        lemma_table_identity(s.skip(k), (n - 1) as nat, fm, km);
                        assert(enc_rec(r) + s.skip(k).subrange(0, u) =~= s.subrange(0, k + u));
                    },
                }
            },
        }
    }
}

/// With empty marker lists no record is ever redacted.
pub proof fn lemma_empty_markers_no_redaction(s: Seq<u8>, n: nat, fm: Seq<Seq<u8>>, km: Seq<Seq<u8>>)
    requires
        fm.len() == 0,
        km.len() == 0,
    ensures
        spec_table(s, n, fm, km) matches Parsed::Val(v, used) ==> v.1.len() == 0,
    decreases n,
{
    reveal(spec_table);
    if n > 0 {
        match parse_rec(s) {
            Parsed::Fail(_) => {},
            Parsed::Val(r, k) => {
                lemma_empty_markers_no_redaction(s.skip(k), (n - 1) as nat, fm, km);
            },
        }
    }
}

/// Round-trip identity: a run that redacts nothing — its returned name
/// list is empty — produces an output byte-identical to its input.
pub proof fn lemma_round_trip_identity(input: Seq<u8>, fm: Seq<Seq<u8>>, km: Seq<Seq<u8>>)
    requires
        spec_process(input, fm, km) matches Outcome::Done { out, names } && names.len() == 0,
    ensures
        spec_process(input, fm, km) matches Outcome::Done { out, names } ==> out == input,
{
    let n = le32(input.subrange(1200, 1204));
    match spec_table(input.skip(1204), n as nat, fm, km) {
        Parsed::Fail(_) => {},
        Parsed::Val(v, used) => {
            lemma_table_identity(input.skip(1204), n as nat, fm, km);
            assert(input.subrange(0, 1204) + input.skip(1204).subrange(0, used) + input.skip(
                1204 + used,
            ) =~= input);
        },
    }
}

/// The header block and the record count pass through unchanged: the
/// output's first 1204 bytes are the input's, so its count field reads
/// the same value, and as many records stand in the output as the count
/// announces (each re-encoded in table order).
pub proof fn lemma_count_preserved(input: Seq<u8>, fm: Seq<Seq<u8>>, km: Seq<Seq<u8>>)
    requires
        spec_process(input, fm, km) matches Outcome::Done { out, names },
    ensures
        spec_process(input, fm, km) matches Outcome::Done { out, names } ==> {
            &&& out.len() >= 1204
            &&& out.subrange(0, 1204) == input.subrange(0, 1204)
            &&& le32(out.subrange(1200, 1204)) == le32(input.subrange(1200, 1204))
        },
{
    let n = le32(input.subrange(1200, 1204));
    match spec_table(input.skip(1204), n as nat, fm, km) {
        Parsed::Fail(_) => {},
        Parsed::Val(v, used) => {
            let out = input.subrange(0, 1204) + v.0 + input.skip(1204 + used);
            assert(out.subrange(0, 1204) =~= input.subrange(0, 1204));
            assert(out.subrange(1200, 1204) =~= input.subrange(1200, 1204));
        },
    }
}

/// No more names are reported than there are records in the table.
pub proof fn lemma_names_at_most_count(s: Seq<u8>, n: nat, fm: Seq<Seq<u8>>, km: Seq<Seq<u8>>)
    ensures
        spec_table(s, n, fm, km) matches Parsed::Val(v, used) ==> v.1.len() <= n,
    decreases n,
{
    reveal(spec_table);
    if n > 0 {
        match parse_rec(s) {
            Parsed::Fail(_) => {},
            Parsed::Val(r, k) => {
                lemma_names_at_most_count(s.skip(k), (n - 1) as nat, fm, km);
            },
        }
    }
}

/// A transformed table, read again, parses as the same number of records
/// and re-encodes to the same bytes: the output of one pass is a fixed
/// point of the byte transform. When the token itself satisfies no marker,
/// the second pass also redacts nothing.
pub proof fn lemma_table_idempotent(
    s: Seq<u8>,
    n: nat,
    fm: Seq<Seq<u8>>,
    km: Seq<Seq<u8>>,
    rest2: Seq<u8>,
)
    requires
        spec_table(s, n, fm, km) matches Parsed::Val(v, used),
    ensures
        spec_table(s, n, fm, km) matches Parsed::Val(v, used) ==> spec_table(
            v.0 + rest2,
            n,
            fm,
            km,
        ) matches Parsed::Val(v2, used2) && {
            &&& v2.0 == v.0
            &&& used2 == v.0.len()
            &&& !is_secret(token(), token(), fm, km) ==> v2.1 == Seq::<Seq<u8>>::empty()
        },
    decreases n,
{
    reveal(spec_table);
    if n == 0 {
    } else {
        match parse_rec(s) {
            Parsed::Fail(_) => {},
            Parsed::Val(r, k) => {
                lemma_parse_rec_exact(s);
                match spec_table(s.skip(k), (n - 1) as nat, fm, km) {
                    Parsed::Fail(_) => {},
                    Parsed::Val(ro, u) => {
                        let out_r = redact_rec(r, fm, km);
                        lemma_redact_rec_wf(r, fm, km);
                        assert(redact_rec(out_r, fm, km) == out_r);
                        lemma_parse_rec_of_enc(out_r, ro.0 + rest2);
                        assert((enc_rec(out_r) + ro.0) + rest2 =~= enc_rec(out_r) + (ro.0
                            + rest2));
                        crate::record::lemma_drop_front(enc_rec(out_r), ro.0 + rest2);
                        lemma_table_idempotent(s.skip(k), (n - 1) as nat, fm, km, rest2);
                    },
                }
            },
        }
    }
}

/// Idempotence: running the transform over its own output changes no
/// byte, and when the token itself satisfies no marker the second run
/// also redacts nothing.
pub proof fn lemma_idempotent(input: Seq<u8>, fm: Seq<Seq<u8>>, km: Seq<Seq<u8>>)
    requires
        spec_process(input, fm, km) matches Outcome::Done { out, names },
    ensures
        spec_process(input, fm, km) matches Outcome::Done { out, names } ==> spec_process(
            out,
            fm,
            km,
        ) matches Outcome::Done { out: out2, names: names2 } && {
            &&& out2 == out
            &&& !is_secret(token(), token(), fm, km) ==> names2 == Seq::<Seq<u8>>::empty()
        },
{
    let n = le32(input.subrange(1200, 1204));
    match spec_table(input.skip(1204), n as nat, fm, km) {
        Parsed::Fail(_) => {},
        Parsed::Val(v, used) => {
            let tail = input.skip(1204 + used);
            let out = input.subrange(0, 1204) + v.0 + tail;
            assert(out.subrange(0, 8) =~= input.subrange(0, 8));
            assert(out.subrange(8, 12) =~= input.subrange(8, 12));
            assert(out.subrange(1200, 1204) =~= input.subrange(1200, 1204));
            assert(out.skip(1204) =~= v.0 + tail);
            lemma_table_idempotent(input.skip(1204), n as nat, fm, km, tail);
            assert(out.skip(1204 + v.0.len() as int) =~= tail);
            assert(out.subrange(0, 1204) + v.0 + out.skip(1204 + v.0.len() as int) =~= out);
        },
    }
}

} // verus!
