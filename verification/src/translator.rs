//! The translator drives the pipeline: it decodes incoming byte chunks into
//! text, retains any undecodable tail for the next chunk, and drains every
//! complete node the parser can produce into the grid.
//!
//! Decoding is lossy in the standard way: a maximal valid prefix is decoded,
//! an invalid sequence becomes one U+FFFD replacement character, and a
//! trailing incomplete-but-potentially-valid sequence is carried over to the
//! next chunk. No input ever stops the pipeline.

use crate::data::{apply_node, push_str_chars, DataComponent, GridModel};
use crate::parser::{Node, NodeParseResult, SpecParseResult};
use vstd::prelude::*;
use vstd::utf8::*;

verus! {

/// The number of bytes in the longest prefix of `b` that is valid UTF-8.
pub open spec fn valid_up_to(b: Seq<u8>) -> int
    decreases b.len(),
{
    if b.len() == 0 {
        0
    } else if valid_first_scalar(b) {
        length_of_first_scalar(b) + valid_up_to(pop_first_scalar(b))
    } else {
        0
    }
}

/// The longest valid prefix is between zero bytes and all of them, and it is
/// valid UTF-8.
pub proof fn lemma_valid_up_to(b: Seq<u8>)
    ensures
        0 <= valid_up_to(b) <= b.len(),
        valid_utf8(b.take(valid_up_to(b))),
    decreases b.len(),
{
    if b.len() == 0 {
        assert(b.take(0) =~= Seq::<u8>::empty());
        assert(valid_utf8(b.take(0)));
    } else if valid_first_scalar(b) {
        let l = length_of_first_scalar(b);
        let rest = pop_first_scalar(b);
        lemma_valid_up_to(rest);
        let k = valid_up_to(b);
        assert(b.take(k).len() == k);
        assert(valid_first_scalar(b.take(k))) by {
            lemma_valid_first_scalar_prefix(b, k);
        }
        assert(pop_first_scalar(b.take(k)) =~= rest.take(valid_up_to(rest)));
    } else {
        assert(b.take(0) =~= Seq::<u8>::empty());
        assert(valid_utf8(b.take(0)));
    }
}

/// A well-formed first scalar stays well-formed in any prefix long enough to
/// hold it, and its length and value do not change.
proof fn lemma_valid_first_scalar_prefix(b: Seq<u8>, k: int)
    requires
        valid_first_scalar(b),
        length_of_first_scalar(b) <= k <= b.len(),
    ensures
        valid_first_scalar(b.take(k)),
        length_of_first_scalar(b.take(k)) == length_of_first_scalar(b),
{
}

/// Whether `b` is the nonempty strict prefix of at least one well-formed
/// scalar encoding: bytes that cannot be decoded yet but may become a valid
/// scalar once more bytes arrive.
pub open spec fn is_partial_scalar(b: Seq<u8>) -> bool {
    ||| (b.len() == 1 && 0xC2 <= b[0] && b[0] <= 0xF4)
    ||| (b.len() == 2 && 0xE0 <= b[0] && b[0] <= 0xF4 && valid_second_byte(b[0], b[1]))
    ||| (b.len() == 3 && 0xF0 <= b[0] && b[0] <= 0xF4 && valid_second_byte(b[0], b[1])
        && is_continuation_byte(b[2]))
}

/// The admissible second byte of a multi-byte scalar encoding, given its
/// leading byte: the general continuation range, narrowed for the leading
/// bytes whose full range would reach overlong encodings, surrogates, or
/// values past the last scalar.
pub open spec fn valid_second_byte(lead: u8, b: u8) -> bool {
    if lead == 0xE0 {
        0xA0 <= b && b <= 0xBF
    } else if lead == 0xED {
        0x80 <= b && b <= 0x9F
    } else if lead == 0xF0 {
        0x90 <= b && b <= 0xBF
    } else if lead == 0xF4 {
        0x80 <= b && b <= 0x8F
    } else {
        0x80 <= b && b <= 0xBF
    }
}

/// The length of the invalid sequence at the head of `r`: its longest prefix
/// that is still the beginning of some well-formed scalar encoding, or one
/// byte when there is no such prefix. This is the "maximal subpart" the
/// Unicode standard recommends replacing with a single U+FFFD.
pub open spec fn invalid_seq_len(r: Seq<u8>) -> int {
    if r.len() >= 3 && is_partial_scalar(r.take(3)) {
        3
    } else if r.len() >= 2 && is_partial_scalar(r.take(2)) {
        2
    } else {
        1
    }
}

/// The result of lossy, resumable decoding: the decoded text (with one
/// U+FFFD per invalid sequence) and the residual bytes that may still grow
/// into a valid scalar.
pub open spec fn lossy_decode(b: Seq<u8>) -> (Seq<char>, Seq<u8>)
    decreases b.len(),
    via lossy_decode_decreases
{
    let k = valid_up_to(b);
    let vp = b.take(k);
    let r0 = b.skip(k);
    if r0.len() == 0 {
        (decode_utf8(vp), Seq::empty())
    } else if is_partial_scalar(r0) {
        (decode_utf8(vp), r0)
    } else {
        let m = invalid_seq_len(r0);
        let rec = lossy_decode(r0.skip(m));
        (decode_utf8(vp) + seq!['\u{FFFD}'] + rec.0, rec.1)
    }
}

#[via_fn]
proof fn lossy_decode_decreases(b: Seq<u8>) {
    lemma_valid_up_to(b);
}

/// For a two-byte encoding, not being overlong is exactly a leading byte of
/// at least 0xC2.
proof fn lemma_scalar_ranges_w2(b0: u8, b1: u8)
    requires
        0xC0 <= b0 <= 0xDF,
        0x80 <= b1 <= 0xBF,
    ensures
        not_overlong_encoding(codepoint_width_2(b0, b1), 2) <==> 0xC2 <= b0,
        not_surrogate(codepoint_width_2(b0, b1)),
{
    assert((0xC0 <= b0 && b0 <= 0xDF && 0x80 <= b1 && b1 <= 0xBF) ==> ((((b0 & 0x1F) as u32) << 6
        | ((b1 & 0x3F) as u32)) >= 0x80 <==> b0 >= 0xC2)) by (bit_vector);
    assert((0xC0 <= b0 && b0 <= 0xDF && 0x80 <= b1 && b1 <= 0xBF) ==> ((((b0 & 0x1F) as u32) << 6
        | ((b1 & 0x3F) as u32)) < 0xD800)) by (bit_vector);
}

/// For a three-byte encoding, not being overlong and not reaching the
/// surrogate range is exactly the narrowed second-byte range.
proof fn lemma_scalar_ranges_w3(b0: u8, b1: u8, b2: u8)
    requires
        0xE0 <= b0 <= 0xEF,
        0x80 <= b1 <= 0xBF,
        0x80 <= b2 <= 0xBF,
    ensures
        (not_overlong_encoding(codepoint_width_3(b0, b1, b2), 3) && not_surrogate(
            codepoint_width_3(b0, b1, b2),
        )) <==> valid_second_byte(b0, b1),
{
    let cp = codepoint_width_3(b0, b1, b2);
    assert(cp == ((b0 & 0x0F) as u32) << 12 | ((b1 & 0x3F) as u32) << 6 | ((b2 & 0x3F) as u32));
    assert((0xE0 <= b0 && b0 <= 0xEF && 0x80 <= b1 && b1 <= 0xBF && 0x80 <= b2 && b2 <= 0xBF)
        ==> ((((b0 & 0x0F) as u32) << 12 | ((b1 & 0x3F) as u32) << 6 | ((b2 & 0x3F) as u32))
        >= 0x800 <==> (b0 != 0xE0 || b1 >= 0xA0))) by (bit_vector);
    assert((0xE0 <= b0 && b0 <= 0xEF && 0x80 <= b1 && b1 <= 0xBF && 0x80 <= b2 && b2 <= 0xBF)
        ==> ((0xD800 <= (((b0 & 0x0F) as u32) << 12 | ((b1 & 0x3F) as u32) << 6 | ((b2
        & 0x3F) as u32)) && (((b0 & 0x0F) as u32) << 12 | ((b1 & 0x3F) as u32) << 6 | ((b2
        & 0x3F) as u32)) <= 0xDFFF) <==> (b0 == 0xED && b1 >= 0xA0))) by (bit_vector);
}

/// For a four-byte encoding, staying within the scalar range is exactly a
/// leading byte of at most 0xF4 with the narrowed second-byte range.
proof fn lemma_scalar_ranges_w4(b0: u8, b1: u8, b2: u8, b3: u8)
    requires
        0xF0 <= b0 <= 0xF7,
        0x80 <= b1 <= 0xBF,
        0x80 <= b2 <= 0xBF,
        0x80 <= b3 <= 0xBF,
    ensures
        (not_overlong_encoding(codepoint_width_4(b0, b1, b2, b3), 4) && not_surrogate(
            codepoint_width_4(b0, b1, b2, b3),
        )) <==> (b0 <= 0xF4 && valid_second_byte(b0, b1)),
{
    let cp = codepoint_width_4(b0, b1, b2, b3);
    assert(cp == ((b0 & 0x07) as u32) << 18 | ((b1 & 0x3F) as u32) << 12 | ((b2 & 0x3F) as u32)
        << 6 | ((b3 & 0x3F) as u32));
    assert((0xF0 <= b0 && b0 <= 0xF7 && 0x80 <= b1 && b1 <= 0xBF && 0x80 <= b2 && b2 <= 0xBF
        && 0x80 <= b3 && b3 <= 0xBF) ==> ((0x10000 <= (((b0 & 0x07) as u32) << 18 | ((b1
        & 0x3F) as u32) << 12 | ((b2 & 0x3F) as u32) << 6 | ((b3 & 0x3F) as u32)) && (((b0
        & 0x07) as u32) << 18 | ((b1 & 0x3F) as u32) << 12 | ((b2 & 0x3F) as u32) << 6 | ((b3
        & 0x3F) as u32)) <= 0x10FFFF) <==> (b0 <= 0xF4 && (b0 != 0xF0 || b1 >= 0x90) && (b0
        != 0xF4 || b1 <= 0x8F)))) by (bit_vector);
    assert((0xF0 <= b0 && b0 <= 0xF7 && 0x80 <= b1 && b1 <= 0xBF && 0x80 <= b2 && b2 <= 0xBF
        && 0x80 <= b3 && b3 <= 0xBF && 0x10000 <= (((b0 & 0x07) as u32) << 18 | ((b1
        & 0x3F) as u32) << 12 | ((b2 & 0x3F) as u32) << 6 | ((b3 & 0x3F) as u32))) ==> !(0xD800
        <= (((b0 & 0x07) as u32) << 18 | ((b1 & 0x3F) as u32) << 12 | ((b2 & 0x3F) as u32) << 6
        | ((b3 & 0x3F) as u32)) && (((b0 & 0x07) as u32) << 18 | ((b1 & 0x3F) as u32) << 12
        | ((b2 & 0x3F) as u32) << 6 | ((b3 & 0x3F) as u32)) <= 0xDFFF)) by (bit_vector);
}

/// Every nonempty strict prefix of a well-formed scalar encoding is the
/// beginning of a possible scalar.
proof fn lemma_strict_prefix_is_partial(u: Seq<u8>, j: int)
    requires
        valid_first_scalar(u),
        1 <= j < length_of_first_scalar(u),
    ensures
        is_partial_scalar(u.take(j)),
{
    let l = length_of_first_scalar(u);
    let p = u.take(j);
    if is_leading_byte_width_2(u[0]) {
        lemma_scalar_ranges_w2(u[0], u[1]);
    } else if is_leading_byte_width_3(u[0]) {
        lemma_scalar_ranges_w3(u[0], u[1], u[2]);
    } else if is_leading_byte_width_4(u[0]) {
        lemma_scalar_ranges_w4(u[0], u[1], u[2], u[3]);
    }
}

/// A possible-scalar beginning stays one when shortened (but kept nonempty).
proof fn lemma_partial_downward(b: Seq<u8>, j: int)
    requires
        is_partial_scalar(b),
        1 <= j <= b.len(),
    ensures
        is_partial_scalar(b.take(j)),
{
}

/// A well-formed first scalar is untouched by appending bytes: same
/// validity, same length, same value.
proof fn lemma_first_scalar_append(v: Seq<u8>, w: Seq<u8>)
    requires
        v.len() > 0,
        valid_first_scalar(v),
    ensures
        valid_first_scalar(v + w),
        length_of_first_scalar(v + w) == length_of_first_scalar(v),
        decode_first_scalar(v + w) == decode_first_scalar(v),
{
    let u = v + w;
    assert(u[0] == v[0]);
    if is_leading_byte_width_2(v[0]) {
        assert(u[1] == v[1]);
    } else if is_leading_byte_width_3(v[0]) {
        assert(u[1] == v[1] && u[2] == v[2]);
    } else if is_leading_byte_width_4(v[0]) {
        assert(u[1] == v[1] && u[2] == v[2] && u[3] == v[3]);
    }
}

/// Decoding distributes over the join of two valid byte sequences.
proof fn lemma_decode_utf8_concat(v: Seq<u8>, w: Seq<u8>)
    requires
        valid_utf8(v),
        valid_utf8(w),
    ensures
        valid_utf8(v + w),
        decode_utf8(v + w) == decode_utf8(v) + decode_utf8(w),
    decreases v.len(),
{
    valid_utf8_concat(v, w);
    if v.len() == 0 {
        assert(v + w =~= w);
        assert(decode_utf8(v) + decode_utf8(w) =~= decode_utf8(w));
    } else {
        lemma_first_scalar_append(v, w);
        let rest = pop_first_scalar(v);
        assert(pop_first_scalar(v + w) =~= rest + w);
        lemma_decode_utf8_concat(rest, w);
        assert(decode_utf8(v + w) =~= decode_utf8(v) + decode_utf8(w));
    }
}

/// The longest valid prefix of a join starts with all of a valid first part.
proof fn lemma_valid_up_to_concat(v: Seq<u8>, x: Seq<u8>)
    requires
        valid_utf8(v),
    ensures
        valid_up_to(v + x) == v.len() + valid_up_to(x),
    decreases v.len(),
{
    if v.len() == 0 {
        assert(v + x =~= x);
    } else {
        lemma_first_scalar_append(v, x);
        let rest = pop_first_scalar(v);
        assert(pop_first_scalar(v + x) =~= rest + x);
        lemma_valid_up_to_concat(rest, x);
    }
}

/// Where the longest valid prefix stops, no well-formed scalar starts.
proof fn lemma_valid_up_to_stops(b: Seq<u8>)
    ensures
        b.skip(valid_up_to(b)).len() > 0 ==> !valid_first_scalar(b.skip(valid_up_to(b))),
    decreases b.len(),
{
    lemma_valid_up_to(b);
    if b.len() == 0 {
    } else if valid_first_scalar(b) {
        let l = length_of_first_scalar(b);
        let rest = pop_first_scalar(b);
        lemma_valid_up_to_stops(rest);
        lemma_valid_up_to(rest);
        assert(b.skip(valid_up_to(b)) =~= rest.skip(valid_up_to(rest)));
    }
}

/// Bytes that neither begin a well-formed scalar nor could still become one
/// keep both failings, and the length of their invalid head, whatever bytes
/// are appended.
proof fn lemma_invalid_head_append(r: Seq<u8>, w: Seq<u8>)
    requires
        r.len() >= 1,
        !valid_first_scalar(r),
        !is_partial_scalar(r),
    ensures
        !valid_first_scalar(r + w),
        !is_partial_scalar(r + w),
        invalid_seq_len(r + w) == invalid_seq_len(r),
{
    let u = r + w;
    // a well-formed scalar at the head would either sit wholly inside `r`
    // or make `r` the beginning of a possible scalar
    if valid_first_scalar(u) {
        let l = length_of_first_scalar(u);
        if l <= r.len() {
            assert(r[0] == u[0]);
            if is_leading_byte_width_2(u[0]) {
                assert(r[1] == u[1]);
            } else if is_leading_byte_width_3(u[0]) {
                assert(r[1] == u[1] && r[2] == u[2]);
            } else if is_leading_byte_width_4(u[0]) {
                assert(r[1] == u[1] && r[2] == u[2] && r[3] == u[3]);
            }
            assert(valid_first_scalar(r));
            assert(false);
        } else {
            lemma_strict_prefix_is_partial(u, r.len() as int);
            assert(u.take(r.len() as int) =~= r);
            assert(false);
        }
    }
    if is_partial_scalar(u) {
        if w.len() == 0 {
            assert(u =~= r);
            assert(false);
        } else {
            lemma_partial_downward(u, r.len() as int);
            assert(u.take(r.len() as int) =~= r);
            assert(false);
        }
    }
    // the invalid head is judged on at most three bytes, and a longer
    // possible-scalar beginning there would reach back into `r`
    assert(invalid_seq_len(u) == invalid_seq_len(r)) by {
        if r.len() >= 3 {
            assert(u.take(3) =~= r.take(3));
            assert(u.take(2) =~= r.take(2));
        } else if r.len() == 2 {
            assert(u.take(2) =~= r);
            if u.len() >= 3 && is_partial_scalar(u.take(3)) {
                lemma_partial_downward(u.take(3), 2);
                assert(u.take(3).take(2) =~= r);
                assert(false);
            }
        } else {
            assert(u.take(1) =~= r);
            if u.len() >= 3 && is_partial_scalar(u.take(3)) {
                lemma_partial_downward(u.take(3), 1);
                assert(u.take(3).take(1) =~= r);
                assert(false);
            }
            if u.len() >= 2 && is_partial_scalar(u.take(2)) {
                lemma_partial_downward(u.take(2), 1);
                assert(u.take(2).take(1) =~= r);
                assert(false);
            }
        }
    }
}

/// Lossy decoding peels off a leading valid part.
proof fn lemma_lossy_peel(v: Seq<u8>, x: Seq<u8>)
    requires
        valid_utf8(v),
    ensures
        lossy_decode(v + x).0 == decode_utf8(v) + lossy_decode(x).0,
        lossy_decode(v + x).1 == lossy_decode(x).1,
{
    let b = v + x;
    lemma_valid_up_to(x);
    lemma_valid_up_to_concat(v, x);
    let kx = valid_up_to(x);
    let k = valid_up_to(b);
    assert(b.take(k) =~= v + x.take(kx));
    assert(b.skip(k) =~= x.skip(kx));
    lemma_decode_utf8_concat(v, x.take(kx));
    if x.skip(kx).len() == 0 {
    } else if is_partial_scalar(x.skip(kx)) {
    } else {
        let m = invalid_seq_len(x.skip(kx));
        assert(lossy_decode(b).0 =~= decode_utf8(v) + (decode_utf8(x.take(kx)) + seq!['\u{FFFD}']
            + lossy_decode(x.skip(kx).skip(m)).0));
    }
}

/// Chunking invariance of lossy decoding: splitting a byte stream anywhere,
/// decoding the first part, and then decoding its residual joined with the
/// second part, decodes the very same text and leaves the very same residual
/// as decoding the whole stream at once — whether the split fell inside a
/// multi-byte encoding, inside an invalid sequence, or between characters.
pub proof fn lemma_decode_resume(b1: Seq<u8>, b2: Seq<u8>)
    ensures
        ({
            let first = lossy_decode(b1);
            let second = lossy_decode(first.1 + b2);
            let whole = lossy_decode(b1 + b2);
            &&& whole.0 == first.0 + second.0
            &&& whole.1 == second.1
        }),
    decreases b1.len(),
{
    let first = lossy_decode(b1);
    let whole = lossy_decode(b1 + b2);
    lemma_valid_up_to(b1);
    let k = valid_up_to(b1);
    let vp = b1.take(k);
    let r0 = b1.skip(k);
    if r0.len() == 0 {
        // the first part was wholly valid and left no residual
        assert(vp =~= b1);
        lemma_lossy_peel(b1, b2);
        assert(first.1 + b2 =~= b2);
        assert(first.0 + lossy_decode(b2).0 =~= decode_utf8(b1) + lossy_decode(b2).0);
    } else if is_partial_scalar(r0) {
        // the residual recombines with the next chunk before its bytes count
        lemma_lossy_peel(vp, r0 + b2);
        assert(b1 + b2 =~= vp + (r0 + b2));
        assert(first.0 + lossy_decode(r0 + b2).0 =~= decode_utf8(vp) + lossy_decode(r0 + b2).0);
    } else {
        // an invalid head is invalid whatever follows; the rest is smaller
        lemma_valid_up_to_stops(b1);
        let m = invalid_seq_len(r0);
        lemma_lossy_peel(vp, r0 + b2);
        assert(b1 + b2 =~= vp + (r0 + b2));
        lemma_invalid_head_append(r0, b2);
        assert((r0 + b2).skip(m) =~= r0.skip(m) + b2);
        lemma_decode_resume(r0.skip(m), b2);
        let rec = lossy_decode(r0.skip(m));
        let second = lossy_decode(rec.1 + b2);
        assert(valid_up_to(r0 + b2) == 0);
        assert((r0 + b2).take(0) =~= Seq::<u8>::empty());
        assert((r0 + b2).skip(0) =~= r0 + b2);
        assert(decode_utf8(Seq::<u8>::empty()) =~= Seq::<char>::empty());
        assert(invalid_seq_len(r0 + b2) == m);
        assert(lossy_decode(r0 + b2).0 == decode_utf8(Seq::<u8>::empty()) + seq!['\u{FFFD}']
            + lossy_decode(r0.skip(m) + b2).0);
        assert(lossy_decode(r0.skip(m) + b2).0 == rec.0 + second.0);
        assert(lossy_decode(r0 + b2).0 =~= seq!['\u{FFFD}'] + (rec.0 + second.0));
        assert(whole.0 =~= decode_utf8(vp) + (seq!['\u{FFFD}'] + (rec.0 + second.0)));
        assert(first.0 + second.0 =~= decode_utf8(vp) + (seq!['\u{FFFD}'] + (rec.0 + second.0)));
        assert(whole.1 == lossy_decode(r0.skip(m) + b2).1);
        assert(whole.1 == second.1);
    }
}

/// The variants of one decoding step over a byte chunk: the whole chunk was
/// valid; a valid prefix was followed by an incomplete trailing sequence; or
/// a valid prefix was followed by an invalid sequence, with the bytes after
/// that sequence returned for another step.
enum DecodeStep {
    Whole(String),
    Incomplete(String, Vec<u8>),
    Invalid(String, Vec<u8>),
}

/// Relies on `utf8::decode` (the utf-8 crate), which classifies a chunk via
/// `str::from_utf8`: `Ok` when the whole chunk is valid UTF-8; otherwise the
/// longest valid prefix (`Utf8Error::valid_up_to`), then either an
/// incomplete trailing sequence carried in an `Incomplete`, or an invalid
/// sequence of `Utf8Error::error_len` bytes — the maximal subpart — with the
/// remaining input after it.
#[verifier::external_body]
fn decode_chunk(input: &[u8]) -> (r: DecodeStep)
    ensures
        ({
            let k = valid_up_to(input@);
            let vp = input@.take(k);
            let r0 = input@.skip(k);
            match r {
                DecodeStep::Whole(text) => r0.len() == 0 && text@ == decode_utf8(vp),
                DecodeStep::Incomplete(text, rest) => r0.len() > 0 && is_partial_scalar(r0)
                    && text@ == decode_utf8(vp) && rest@ == r0,
                DecodeStep::Invalid(text, rest) => r0.len() > 0 && !is_partial_scalar(r0) && text@
                    == decode_utf8(vp) && rest@ == r0.skip(invalid_seq_len(r0)),
            }
        }),
{
    match utf8::decode(input) {
        Ok(text) => DecodeStep::Whole(text.to_owned()),
        Err(utf8::DecodeError::Incomplete { valid_prefix, incomplete_suffix }) => {
            let len = incomplete_suffix.buffer_len as usize;
            DecodeStep::Incomplete(
                valid_prefix.to_owned(),
                incomplete_suffix.buffer[..len].to_vec(),
            )
        },
        Err(utf8::DecodeError::Invalid { valid_prefix, invalid_sequence: _, remaining_input }) => {
            DecodeStep::Invalid(valid_prefix.to_owned(), remaining_input.to_vec())
        },
    }
}

/// Cross-call state of the pipeline: the text the parser has not yet consumed,
/// and the trailing bytes of the last chunk that were the beginning of a
/// not-yet-complete UTF-8 encoding.
pub struct Translator {
    text_buffer: Vec<char>,
    incomplete: Vec<u8>,
}

/// The model of a [`Translator`]: the retained text and the retained bytes.
pub struct TranslatorModel {
    pub text: Seq<char>,
    pub residual: Seq<u8>,
}

impl View for Translator {
    type V = TranslatorModel;

    closed spec fn view(&self) -> TranslatorModel {
        TranslatorModel { text: self.text_buffer@, residual: self.incomplete@ }
    }
}

/// Apply parsed nodes to the grid for as long as the parser finds complete
/// ones, beginning at position `i` of `text`: the resulting grid, and the
/// position where the parser first needed more input.
pub open spec fn drain_from(g: GridModel, text: Seq<char>, i: int) -> (GridModel, int)
    decreases text.len() - i,
    when 0 <= i <= text.len()
    via drain_from_decreases
{
    match crate::parser::spec_parse(text, i) {
        SpecParseResult::Match(k, node) => drain_from(apply_node(g, node), text, k),
        SpecParseResult::Indeterminate => (g, i),
    }
}

#[via_fn]
proof fn drain_from_decreases(g: GridModel, text: Seq<char>, i: int) {
    crate::parser::lemma_parse_bounds(text, i);
}

/// Draining never moves backwards and never leaves the buffer.
proof fn lemma_drain_monotone(g: GridModel, text: Seq<char>, i: int)
    requires
        0 <= i <= text.len(),
    ensures
        i <= drain_from(g, text, i).1 <= text.len(),
    decreases text.len() - i,
{
    crate::parser::lemma_parse_bounds(text, i);
    match crate::parser::spec_parse(text, i) {
        SpecParseResult::Match(k, node) => {
            lemma_drain_monotone(apply_node(g, node), text, k);
        },
        SpecParseResult::Indeterminate => {},
    }
}

proof fn lemma_drain_extension_aux(g: GridModel, s: Seq<char>, t: Seq<char>, i: int)
    requires
        0 <= i <= s.len(),
        drain_from(g, s, i).1 < s.len() || s.len() == 0,
    ensures
        drain_from(g, s + t, i) == drain_from(drain_from(g, s, i).0, s + t, drain_from(g, s, i).1),
    decreases s.len() - i,
{
    crate::parser::lemma_parse_bounds(s, i);
    match crate::parser::spec_parse(s, i) {
        SpecParseResult::Match(k, node) => {
            lemma_drain_monotone(apply_node(g, node), s, k);
            crate::parser::lemma_parse_match_extension(s, t, i);
            lemma_drain_extension_aux(apply_node(g, node), s, t, k);
        },
        SpecParseResult::Indeterminate => {},
    }
}

/// Chunking invariance of the drain loop. When draining stopped because a
/// sequence was cut off before its end — the retained tail is nonempty —
/// then however much more text arrives, draining the whole buffer applies
/// exactly the nodes already applied, and continues from the retained tail:
/// splitting the text at such a point changes nothing.
///
/// (A buffer wholly consumed because it ends in a plain text run is the one
/// case outside this statement: more text would have extended that run, and
/// it is the grid's merging of a written cluster with the cursor cell, not
/// the parser, that makes the outcome agree then.)
pub proof fn lemma_drain_chunking(g: GridModel, s: Seq<char>, t: Seq<char>)
    requires
        drain_from(g, s, 0).1 < s.len() || s.len() == 0,
    ensures
        drain_from(g, s + t, 0) == drain_from(drain_from(g, s, 0).0, s + t, drain_from(g, s, 0).1),
{
    lemma_drain_extension_aux(g, s, t, 0);
}

/// Draining a buffer from position `d + i` applies the same nodes as
/// draining the buffer's tail from `d` at position `i`.
proof fn lemma_drain_shift(g: GridModel, s: Seq<char>, d: int, i: int)
    requires
        0 <= d,
        0 <= i,
        d + i <= s.len(),
    ensures
        drain_from(g, s, d + i) == ({
            let r = drain_from(g, s.skip(d), i);
            (r.0, r.1 + d)
        }),
    decreases s.len() - d - i,
{
    let u = s.skip(d);
    crate::parser::lemma_parse_shift(s, d, i);
    crate::parser::lemma_parse_bounds(u, i);
    match crate::parser::spec_parse(u, i) {
        SpecParseResult::Match(k, node) => {
            lemma_drain_shift(apply_node(g, node), s, d, k);
        },
        SpecParseResult::Indeterminate => {},
    }
}

/// Chunking invariance of the translator's parse loop, stated over the
/// buffers it actually keeps. Suppose draining a text buffer stopped because
/// a sequence was cut off before its end (the retained tail is nonempty).
/// Then, for any further text: draining the retained tail joined with that
/// text, starting from the grid the first drain produced, yields the same
/// grid and the same retained tail as draining the whole text in one piece
/// would have. Splitting the text stream at such a point changes nothing.
///
/// (A buffer wholly consumed because it ends in a plain text run is the one
/// case outside this statement: more text would have extended that run, and
/// it is the grid's merging of a written cluster with the cursor cell, not
/// the parser, that reconciles the outcome then.)
pub proof fn lemma_drain_resume(g: GridModel, s: Seq<char>, t: Seq<char>)
    requires
        drain_from(g, s, 0).1 < s.len() || s.len() == 0,
    ensures
        ({
            let first = drain_from(g, s, 0);
            let rest = s.skip(first.1);
            let second = drain_from(first.0, rest + t, 0);
            let whole = drain_from(g, s + t, 0);
            &&& whole.0 == second.0
            &&& (s + t).skip(whole.1) == (rest + t).skip(second.1)
        }),
{
    let first = drain_from(g, s, 0);
    let rest = s.skip(first.1);
    let whole = drain_from(g, s + t, 0);
    lemma_drain_monotone(g, s, 0);
    lemma_drain_chunking(g, s, t);
    assert((s + t).skip(first.1) =~= rest + t);
    lemma_drain_shift(first.0, s + t, first.1, 0);
    let second = drain_from(first.0, rest + t, 0);
    lemma_drain_monotone(first.0, rest + t, 0);
    assert((s + t).skip(whole.1) =~= (rest + t).skip(second.1));
}

/// What one [`Translator::write`] call does, as a function of the old grid,
/// the old translator state and the chunk: decode the retained bytes joined
/// with the chunk, append the text, drain every complete node into the grid,
/// and retain the rest.
pub open spec fn write_step(g: GridModel, tr: TranslatorModel, input: Seq<u8>) -> (
    GridModel,
    TranslatorModel,
) {
    let decoded = lossy_decode(tr.residual + input);
    let merged = tr.text + decoded.0;
    let drained = drain_from(g, merged, 0);
    (drained.0, TranslatorModel { text: merged.skip(drained.1), residual: decoded.1 })
}

/// Chunking invariance of [`Translator::write`]: splitting a byte stream
/// into two chunks and writing them one call at a time leaves the same grid,
/// the same retained text and the same retained bytes as writing the whole
/// stream in one call — for any split of the bytes, including one inside a
/// multi-byte UTF-8 encoding or inside an escape sequence. The one proviso
/// concerns text, not bytes: the first chunk's text must not end in a plain
/// text run (its drain either consumed everything or stopped inside an
/// unfinished sequence), since a text node cut at the end of the buffer is
/// finished by the grid's cluster merge rather than by the parser.
pub proof fn lemma_write_chunking(
    g: GridModel,
    tr: TranslatorModel,
    input1: Seq<u8>,
    input2: Seq<u8>,
)
    requires
        ({
            let merged = tr.text + lossy_decode(tr.residual + input1).0;
            drain_from(g, merged, 0).1 < merged.len() || merged.len() == 0
        }),
    ensures
        ({
            let once = write_step(g, tr, input1 + input2);
            let first = write_step(g, tr, input1);
            let twice = write_step(first.0, first.1, input2);
            &&& once.0 == twice.0
            &&& once.1.text == twice.1.text
            &&& once.1.residual == twice.1.residual
        }),
{
    let d1 = lossy_decode(tr.residual + input1);
    let d2 = lossy_decode(d1.1 + input2);
    let dw = lossy_decode(tr.residual + (input1 + input2));
    lemma_decode_resume(tr.residual + input1, input2);
    assert((tr.residual + input1) + input2 =~= tr.residual + (input1 + input2));
    assert(dw.0 == d1.0 + d2.0);
    assert(dw.1 == d2.1);
    let merged1 = tr.text + d1.0;
    let mergedw = tr.text + dw.0;
    assert(mergedw =~= merged1 + d2.0);
    lemma_drain_resume(g, merged1, d2.0);
    let first = drain_from(g, merged1, 0);
    lemma_drain_monotone(g, merged1, 0);
    assert(merged1.skip(first.1) + d2.0 =~= write_step(g, tr, input1).1.text + d2.0);
}

impl Translator {
    pub fn new() -> (r: Translator)
        ensures
            r@.text == Seq::<char>::empty(),
            r@.residual == Seq::<u8>::empty(),
    {
        let r = Translator { text_buffer: Vec::new(), incomplete: Vec::new() };
        proof {
            assert(r@.text =~= Seq::<char>::empty());
            assert(r@.residual =~= Seq::<u8>::empty());
        }
        r
    }

    /// Feed one chunk of raw bytes through the whole pipeline: decode it,
    /// append the text, and apply every complete node to the grid, retaining
    /// both the undecodable byte tail and the unparseable text tail.
    pub fn write(&mut self, input: &[u8], data: &mut DataComponent)
        requires
            old(data)@.wf(),
        ensures
            ({
                let stepped = write_step(old(data)@, old(self)@, input@);
                &&& final(data)@ == stepped.0
                &&& final(data)@.wf()
                &&& final(self)@.text == stepped.1.text
                &&& final(self)@.residual == stepped.1.residual
            }),
    {
        self.read_bytes_to_buffer(input);
        self.write_buffer_to_data(data);
    }

    /// Decode one chunk, together with the bytes retained from the previous
    /// one, and append the decoded text to the pending-text buffer. Invalid
    /// sequences each become one U+FFFD; an incomplete trailing sequence is
    /// retained for the next call.
    pub fn read_bytes_to_buffer(&mut self, input: &[u8])
        ensures
            ({
                let decoded = lossy_decode(old(self)@.residual + input@);
                &&& final(self)@.text == old(self)@.text + decoded.0
                &&& final(self)@.residual == decoded.1
            }),
    {
        let ghost t0 = self@.text;
        // splice the retained bytes in front of the new chunk
        let mut work: Vec<u8> = Vec::new();
        let mut i: usize = 0;
        let rlen = self.incomplete.len();
        while i < rlen
            invariant
                i <= rlen == self.incomplete@.len(),
                work@ =~= self.incomplete@.take(i as int),
            decreases rlen - i,
        {
            work.push(self.incomplete[i]);
            i = i + 1;
        }
        let ilen = input.len();
        let mut j: usize = 0;
        while j < ilen
            invariant
                j <= ilen == input@.len(),
                work@ =~= self.incomplete@ + input@.take(j as int),
            decreases ilen - j,
        {
            work.push(input[j]);
            j = j + 1;
        }
        proof {
            assert(work@ =~= self.incomplete@ + input@);
        }
        let ghost w0 = work@;
        self.incomplete = Vec::new();
        loop
            invariant
                w0 == old(self)@.residual + input@,
                t0 == old(self)@.text,
                self@.residual =~= Seq::<u8>::empty(),
                t0.len() <= self@.text.len(),
                t0 == self@.text.take(t0.len() as int),
                lossy_decode(w0).0 == self@.text.skip(t0.len() as int) + lossy_decode(work@).0,
                lossy_decode(w0).1 == lossy_decode(work@).1,
            decreases work@.len(),
        {
            let ghost wcur = work@;
            proof {
                lemma_valid_up_to(wcur);
            }
            match decode_chunk(work.as_slice()) {
                DecodeStep::Whole(text) => {
                    push_str_chars(&mut self.text_buffer, text.as_str());
                    proof {
                        assert(lossy_decode(wcur).0 =~= text@);
                        assert(lossy_decode(wcur).1 =~= Seq::<u8>::empty());
                        assert(self@.text.skip(t0.len() as int) =~= lossy_decode(w0).0);
                        assert(self@.text =~= t0 + lossy_decode(w0).0);
                    }
                    return ;
                },
                DecodeStep::Incomplete(text, rest) => {
                    push_str_chars(&mut self.text_buffer, text.as_str());
                    self.incomplete = rest;
                    proof {
                        assert(lossy_decode(wcur).0 =~= text@);
                        assert(lossy_decode(wcur).1 =~= self@.residual);
                        assert(self@.text =~= t0 + lossy_decode(w0).0);
                    }
                    return ;
                },
                DecodeStep::Invalid(text, rest) => {
                    push_str_chars(&mut self.text_buffer, text.as_str());
                    self.text_buffer.push('\u{FFFD}');
                    work = rest;
                    proof {
                        assert(lossy_decode(wcur).0 =~= text@ + seq!['\u{FFFD}'] + lossy_decode(
                            work@,
                        ).0);
                        assert(lossy_decode(wcur).1 == lossy_decode(work@).1);
                        assert(self@.text.skip(t0.len() as int) + lossy_decode(work@).0
                            =~= lossy_decode(w0).0);
                        assert(t0 =~= self@.text.take(t0.len() as int));
                    }
                },
            }
        }
    }

    /// Drain the pending-text buffer: apply every complete node the parser
    /// can produce to the grid, and retain the unconsumed tail for the next
    /// call.
    pub fn write_buffer_to_data(&mut self, data: &mut DataComponent)
        requires
            old(data)@.wf(),
        ensures
            ({
                let drained = drain_from(old(data)@, old(self)@.text, 0);
                &&& final(data)@ == drained.0
                &&& final(data)@.wf()
                &&& final(self)@.text == old(self)@.text.skip(drained.1)
                &&& final(self)@.residual == old(self)@.residual
            }),
    {
        let ghost t0 = self@.text;
        let ghost g0 = data@;
        let mut i: usize = 0;
        loop
            invariant
                0 <= i <= t0.len(),
                self@.text == t0,
                self@.residual == old(self)@.residual,
                data@.wf(),
                drain_from(g0, t0, 0) == drain_from(data@, t0, i as int),
            ensures
                0 <= i <= t0.len(),
                self@.text == t0,
                self@.residual == old(self)@.residual,
                data@.wf(),
                drain_from(g0, t0, 0) == (data@, i as int),
            decreases t0.len() - i,
        {
            match Node::parse(&self.text_buffer, i) {
                NodeParseResult::Match(j, node) => {
                    data.write_node(&node);
                    i = j;
                },
                NodeParseResult::Indeterminate => {
                    break ;
                },
            }
        }
        let tlen = self.text_buffer.len();
        let mut tail: Vec<char> = Vec::new();
        let mut k: usize = i;
        while k < tlen
            invariant
                i <= k <= tlen == self.text_buffer@.len(),
                self@.text == t0,
                self@.residual == old(self)@.residual,
                tail@ =~= t0.subrange(i as int, k as int),
            decreases tlen - k,
        {
            tail.push(self.text_buffer[k]);
            k = k + 1;
        }
        proof {
            assert(tail@ =~= t0.skip(i as int));
        }
        self.text_buffer = tail;
    }
}

} // verus!
