//! Serialization of sketches to bytes and back.
//!
//! The layout is a flat little-endian record: `k`, `max_hash` and the hash
//! count as 64-bit words, then each hash as a 64-bit word, then the two
//! optional metadata strings, each a presence tag followed, when present, by
//! a 64-bit byte length and the string's UTF-8 bytes. The encoding is
//! canonical, so equal bytes mean equal sketches; decoding checks every
//! structural constraint and rejects anything else as a format error.

use vstd::prelude::*;
use vstd::arithmetic::div_mod::lemma_fundamental_div_mod;
use vstd::arithmetic::div_mod::lemma_fundamental_div_mod_converse;
use vstd::string::StringSliceAdditionalSpecFns;
use vstd::string::StrSliceExecFns;
use vstd::utf8::encode_utf8;
use vstd::utf8::encode_utf8_decode_utf8;
use vstd::utf8::encode_utf8_valid_utf8;
use vstd::utf8::valid_utf8;

verus! {

use crate::SketchError;
use crate::sketch::ScaledMinHash;
use crate::sketch::opt_view;

/// The value of a little-endian byte string.
pub open spec fn le_val(s: Seq<u8>) -> int
    decreases s.len(),
{
    if s.len() == 0 {
        0
    } else {
        s[0] + 256 * le_val(s.drop_first())
    }
}

/// `256^n`.
pub open spec fn pow256(n: nat) -> int
    decreases n,
{
    if n == 0 {
        1
    } else {
        256 * pow256((n - 1) as nat)
    }
}

/// The `n`-byte little-endian encoding of `v`.
pub open spec fn le_bytes(v: int, n: nat) -> Seq<u8>
    decreases n,
{
    if n == 0 {
        Seq::empty()
    } else {
        seq![(v % 256) as u8] + le_bytes(v / 256, (n - 1) as nat)
    }
}

proof fn lemma_le_bytes_len(v: int, n: nat)
    ensures
        le_bytes(v, n).len() == n,
    decreases n,
{
    if n > 0 {
        lemma_le_bytes_len(v / 256, (n - 1) as nat);
    }
}

/// Decoding an encoding gives the value back, for values that fit.
proof fn lemma_le_val_le_bytes(v: int, n: nat)
    requires
        0 <= v < pow256(n),
    ensures
        le_val(le_bytes(v, n)) == v,
    decreases n,
{
    if n > 0 {
        assert(0 <= v && v < 256 * pow256((n - 1) as nat) ==> 0 <= v / 256 && v / 256 < pow256(
            (n - 1) as nat,
        )) by (nonlinear_arith);
        lemma_le_val_le_bytes(v / 256, (n - 1) as nat);
        assert(le_bytes(v, n).drop_first() =~= le_bytes(v / 256, (n - 1) as nat));
        lemma_fundamental_div_mod(v, 256);
    }
}

/// Encoding a byte string's value gives the bytes back, and the value is
/// bounded by the string's width.
proof fn lemma_le_bytes_le_val(s: Seq<u8>)
    ensures
        0 <= le_val(s) < pow256(s.len()),
        le_bytes(le_val(s), s.len()) =~= s,
    decreases s.len(),
{
    if s.len() == 0 {
    } else {
        let rest = s.drop_first();
        lemma_le_bytes_le_val(rest);
        let v = le_val(s);
        assert(v == s[0] + 256 * le_val(rest));
        let rv = le_val(rest);
        let p = pow256((s.len() - 1) as nat);
        assert(rv <= p - 1);
        assert(256 * rv <= 256 * (p - 1));
        lemma_fundamental_div_mod_converse(v, 256, le_val(rest), s[0] as int);
        assert(v % 256 == s[0] as int);
        assert(v / 256 == le_val(rest));
        assert(le_bytes(v, s.len()) =~= seq![(v % 256) as u8] + le_bytes(v / 256, (s.len() - 1) as nat));
        assert(le_bytes(v / 256, (s.len() - 1) as nat) =~= rest);
        assert(le_bytes(v, s.len()) =~= s);
    }
}

proof fn lemma_pow256_u64()
    ensures
        pow256(8) == 0x1_0000_0000_0000_0000,
{
    assert(pow256(0) == 1);
    assert(pow256(1) == 256);
    assert(pow256(2) == 0x1_0000);
    assert(pow256(3) == 0x100_0000);
    assert(pow256(4) == 0x1_0000_0000);
    assert(pow256(5) == 0x100_0000_0000);
    assert(pow256(6) == 0x1_0000_0000_0000);
    assert(pow256(7) == 0x100_0000_0000_0000);
}

/// The concatenated encodings of a hash list, in list order.
pub open spec fn encode_hashes(hs: Seq<u64>) -> Seq<u8>
    decreases hs.len(),
{
    if hs.len() == 0 {
        Seq::empty()
    } else {
        le_bytes(hs[0] as int, 8) + encode_hashes(hs.drop_first())
    }
}

proof fn lemma_encode_hashes_len(hs: Seq<u64>)
    ensures
        encode_hashes(hs).len() == 8 * hs.len(),
    decreases hs.len(),
{
    if hs.len() > 0 {
        lemma_le_bytes_len(hs[0] as int, 8);
        lemma_encode_hashes_len(hs.drop_first());
    }
}

proof fn lemma_encode_hashes_snoc(hs: Seq<u64>, h: u64)
    ensures
        encode_hashes(hs.push(h)) =~= encode_hashes(hs) + le_bytes(h as int, 8),
    decreases hs.len(),
{
    lemma_le_bytes_len(h as int, 8);
    lemma_encode_hashes_len(hs);
    lemma_encode_hashes_len(hs.push(h));
    if hs.len() == 0 {
        assert(hs.push(h)[0] == h);
        assert(hs.push(h).drop_first() =~= Seq::<u64>::empty());
        assert(encode_hashes(hs.push(h).drop_first()) =~= Seq::<u8>::empty());
    } else {
        lemma_encode_hashes_snoc(hs.drop_first(), h);
        assert(hs.push(h)[0] == hs[0]);
        assert(hs.push(h).drop_first() =~= hs.drop_first().push(h));
    }
}

/// Each hash's encoding sits at its own 8-byte slot.
proof fn lemma_encode_hashes_index(hs: Seq<u64>, i: int)
    requires
        0 <= i < hs.len(),
    ensures
        encode_hashes(hs).subrange(8 * i, 8 * i + 8) =~= le_bytes(hs[i] as int, 8),
    decreases i,
{
    lemma_encode_hashes_len(hs);
    lemma_le_bytes_len(hs[0] as int, 8);
    lemma_encode_hashes_len(hs.drop_first());
    if i == 0 {
        assert(encode_hashes(hs).subrange(0, 8) =~= le_bytes(hs[0] as int, 8));
    } else {
        lemma_encode_hashes_index(hs.drop_first(), i - 1);
        assert(hs.drop_first()[i - 1] == hs[i]);
        assert(encode_hashes(hs).subrange(8 * i, 8 * i + 8) =~= encode_hashes(
            hs.drop_first(),
        ).subrange(8 * (i - 1), 8 * (i - 1) + 8));
    }
}

/// The encoding of one optional metadata string: a presence tag, then the
/// UTF-8 bytes behind a 64-bit byte length.
pub open spec fn encode_opt_string(o: Option<String>) -> Seq<u8> {
    match o {
        Option::None => seq![0u8],
        Option::Some(s) => seq![1u8] + le_bytes(encode_utf8(s@).len() as int, 8) + encode_utf8(
            s@,
        ),
    }
}

/// Every length the record stores fits its 64-bit slot; true of every value
/// the executable functions handle.
pub open spec fn encodable(s: ScaledMinHash) -> bool {
    &&& s.hashes@.len() <= u64::MAX
    &&& (s.name matches Some(st) ==> encode_utf8(st@).len() <= u64::MAX)
    &&& (s.filename matches Some(st) ==> encode_utf8(st@).len() <= u64::MAX)
}

/// The serialized form of a sketch.
pub open spec fn encode_sketch(s: ScaledMinHash) -> Seq<u8> {
    le_bytes(s.k as int, 8) + le_bytes(s.max_hash as int, 8) + le_bytes(s.hashes@.len() as int, 8)
        + encode_hashes(s.hashes@) + encode_opt_string(s.name) + encode_opt_string(s.filename)
}

/// Append the 8-byte little-endian encoding of `v`.
fn write_u64_le(out: &mut Vec<u8>, v: u64)
    ensures
        final(out)@ == old(out)@ + le_bytes(v as int, 8),
{
    let b0 = (v % 256) as u8;
    let v1 = v / 256;
    let b1 = (v1 % 256) as u8;
    let v2 = v1 / 256;
    let b2 = (v2 % 256) as u8;
    let v3 = v2 / 256;
    let b3 = (v3 % 256) as u8;
    let v4 = v3 / 256;
    let b4 = (v4 % 256) as u8;
    let v5 = v4 / 256;
    let b5 = (v5 % 256) as u8;
    let v6 = v5 / 256;
    let b6 = (v6 % 256) as u8;
    let v7 = v6 / 256;
    let b7 = (v7 % 256) as u8;
    out.push(b0);
    out.push(b1);
    out.push(b2);
    out.push(b3);
    out.push(b4);
    out.push(b5);
    out.push(b6);
    out.push(b7);
    proof {
        assert(v7 as int / 256 == 0);
        assert(le_bytes(v7 as int / 256, 0) =~= Seq::<u8>::empty());
        assert(le_bytes(v7 as int, 1) =~= seq![b7]);
        assert(le_bytes(v6 as int, 2) =~= seq![b6, b7]);
        assert(le_bytes(v5 as int, 3) =~= seq![b5, b6, b7]);
        assert(le_bytes(v4 as int, 4) =~= seq![b4, b5, b6, b7]);
        assert(le_bytes(v3 as int, 5) =~= seq![b3, b4, b5, b6, b7]);
        assert(le_bytes(v2 as int, 6) =~= seq![b2, b3, b4, b5, b6, b7]);
        assert(le_bytes(v1 as int, 7) =~= seq![b1, b2, b3, b4, b5, b6, b7]);
        assert(le_bytes(v as int, 8) =~= seq![b0, b1, b2, b3, b4, b5, b6, b7]);
        assert(out@ =~= old(out)@ + le_bytes(v as int, 8));
    }
}

/// Read the 8-byte little-endian word at `pos`.
fn read_u64_le(bytes: &Vec<u8>, pos: usize) -> (v: u64)
    requires
        pos + 8 <= bytes@.len(),
    ensures
        v as int == le_val(bytes@.subrange(pos as int, pos + 8)),
{
    let blen = bytes.len();
    let b0 = bytes[pos];
    let b1 = bytes[pos + 1];
    let b2 = bytes[pos + 2];
    let b3 = bytes[pos + 3];
    let b4 = bytes[pos + 4];
    let b5 = bytes[pos + 5];
    let b6 = bytes[pos + 6];
    let b7 = bytes[pos + 7];
    let v: u64 = (((((((b7 as u64) * 256 + (b6 as u64)) * 256 + (b5 as u64)) * 256 + (b4 as u64))
        * 256 + (b3 as u64)) * 256 + (b2 as u64)) * 256 + (b1 as u64)) * 256 + (b0 as u64);
    proof {
        let s = bytes@.subrange(pos as int, pos + 8);
        let s1 = s.drop_first();
        let s2 = s1.drop_first();
        let s3 = s2.drop_first();
        let s4 = s3.drop_first();
        let s5 = s4.drop_first();
        let s6 = s5.drop_first();
        let s7 = s6.drop_first();
        let s8 = s7.drop_first();
        assert(s8 =~= Seq::<u8>::empty());
        assert(le_val(s8) == 0);
        assert(s7 =~= seq![b7]);
        assert(s6 =~= seq![b6, b7]);
        assert(s5 =~= seq![b5, b6, b7]);
        assert(s4 =~= seq![b4, b5, b6, b7]);
        assert(s3 =~= seq![b3, b4, b5, b6, b7]);
        assert(s2 =~= seq![b2, b3, b4, b5, b6, b7]);
        assert(s1 =~= seq![b1, b2, b3, b4, b5, b6, b7]);
        assert(le_val(s7) == b7);
        assert(le_val(s6) == b6 + 256 * le_val(s7));
        assert(le_val(s5) == b5 + 256 * le_val(s6));
        assert(le_val(s4) == b4 + 256 * le_val(s5));
        assert(le_val(s3) == b3 + 256 * le_val(s4));
        assert(le_val(s2) == b2 + 256 * le_val(s3));
        assert(le_val(s1) == b1 + 256 * le_val(s2));
        assert(le_val(s) == b0 + 256 * le_val(s1));
    }
    v
}

/// Append the encoding of one optional metadata string.
#[verifier::loop_isolation(false)]
fn write_opt_string(out: &mut Vec<u8>, o: &Option<String>)
    ensures
        final(out)@ == old(out)@ + encode_opt_string(*o),
        (*o matches Some(st) ==> encode_utf8(st@).len() <= u64::MAX),
{
    match o {
        None => {
            out.push(0u8);
            proof {
                assert(out@ =~= old(out)@ + encode_opt_string(*o));
            }
        },
        Some(st) => {
            out.push(1u8);
            let bs = st.as_bytes_vec();
            write_u64_le(out, bs.len() as u64);
            let mut j: usize = 0;
            let ghost start = out@;
            while j < bs.len()
                invariant
                    j <= bs@.len(),
                    out@ == start + bs@.take(j as int),
                decreases bs@.len() - j,
            {
                out.push(bs[j]);
                proof {
                    assert(bs@.take(j + 1) =~= bs@.take(j as int).push(bs@[j as int]));
                    assert(start + bs@.take(j + 1) =~= (start + bs@.take(j as int)).push(
                        bs@[j as int],
                    ));
                }
                j += 1;
            }
            proof {
                assert(bs@.take(bs@.len() as int) =~= bs@);
                assert(bs@ == encode_utf8(st@));
                assert(out@ =~= old(out)@ + encode_opt_string(*o));
            }
        },
    }
}

/// Serialize a sketch into its canonical byte record.
#[verifier::loop_isolation(false)]
pub fn save_sketch(s: &ScaledMinHash) -> (out: Vec<u8>)
    ensures
        out@ == encode_sketch(*s),
        encodable(*s),
{
    let mut out: Vec<u8> = Vec::new();
    write_u64_le(&mut out, s.k as u64);
    write_u64_le(&mut out, s.max_hash);
    write_u64_le(&mut out, s.hashes.len() as u64);
    let ghost header = out@;
    let mut i: usize = 0;
    proof {
        assert(encode_hashes(s.hashes@.take(0)) =~= Seq::<u8>::empty());
        assert(out@ =~= header + encode_hashes(s.hashes@.take(0)));
    }
    while i < s.hashes.len()
        invariant
            i <= s.hashes@.len(),
            out@ == header + encode_hashes(s.hashes@.take(i as int)),
        decreases s.hashes@.len() - i,
    {
        write_u64_le(&mut out, s.hashes[i]);
        proof {
            assert(s.hashes@.take(i + 1) =~= s.hashes@.take(i as int).push(s.hashes@[i as int]));
            lemma_encode_hashes_snoc(s.hashes@.take(i as int), s.hashes@[i as int]);
            assert(out@ =~= header + encode_hashes(s.hashes@.take(i + 1)));
        }
        i += 1;
    }
    proof {
        assert(s.hashes@.take(s.hashes@.len() as int) =~= s.hashes@);
    }
    write_opt_string(&mut out, &s.name);
    write_opt_string(&mut out, &s.filename);
    proof {
        assert(out@ =~= encode_sketch(*s));
    }
    out
}

/// Relies on String::from_utf8: it succeeds exactly on valid UTF-8, and the
/// returned string is the one whose UTF-8 encoding is the given bytes.
#[verifier::external_body]
fn string_from_utf8(bytes: Vec<u8>) -> (r: Option<String>)
    ensures
        r is Some <==> valid_utf8(bytes@),
        r matches Some(s) ==> encode_utf8(s@) == bytes@,
{
    String::from_utf8(bytes).ok()
}

/// Some well-formed sketch's record is exactly these bytes.
pub open spec fn has_valid_encoding(bytes: Seq<u8>) -> bool {
    exists|s2: ScaledMinHash|
        s2.wf() && encodable(s2) && #[trigger] encode_sketch(s2) == bytes
}

/// What a sketch's record fixes about its own bytes: total length and the
/// three header words.
proof fn lemma_encoding_header_facts(s2: ScaledMinHash, bytes: Seq<u8>)
    requires
        encodable(s2),
        encode_sketch(s2) == bytes,
    ensures
        bytes.len() == 24 + 8 * s2.hashes@.len() + encode_opt_string(s2.name).len()
            + encode_opt_string(s2.filename).len(),
        bytes.len() >= 26 + 8 * s2.hashes@.len(),
        le_val(bytes.subrange(0, 8)) == s2.k,
        le_val(bytes.subrange(8, 16)) == s2.max_hash,
        le_val(bytes.subrange(16, 24)) == s2.hashes@.len(),
{
    lemma_header_peel(s2);
    lemma_opt_string_shape(s2.name);
    lemma_opt_string_shape(s2.filename);
    lemma_le_val_le_bytes_u64(s2.k as int);
    lemma_le_val_le_bytes_u64(s2.max_hash as int);
    lemma_le_val_le_bytes_u64(s2.hashes@.len() as int);
    assert(bytes.subrange(0, 8) == le_bytes(s2.k as int, 8));
    assert(bytes.subrange(8, 16) == le_bytes(s2.max_hash as int, 8));
    assert(bytes.subrange(16, 24) == le_bytes(s2.hashes@.len() as int, 8));
}

/// The record fixes each stored hash word.
proof fn lemma_encoding_hash_facts(s2: ScaledMinHash, bytes: Seq<u8>, t: int)
    requires
        encodable(s2),
        encode_sketch(s2) == bytes,
        0 <= t < s2.hashes@.len(),
    ensures
        le_val(bytes.subrange(24 + 8 * t, 24 + 8 * t + 8)) == s2.hashes@[t],
{
    lemma_hash_slot(s2, t);
    lemma_le_val_le_bytes_u64(s2.hashes@[t] as int);
    assert(bytes.subrange(24 + 8 * t, 24 + 8 * t + 8) == le_bytes(s2.hashes@[t] as int, 8));
}

/// The record fixes where each metadata string's encoding sits.
proof fn lemma_encoding_tail_facts(s2: ScaledMinHash, bytes: Seq<u8>)
    requires
        encodable(s2),
        encode_sketch(s2) == bytes,
    ensures
        bytes.subrange(
            24 + 8 * s2.hashes@.len() as int,
            24 + 8 * s2.hashes@.len() as int + encode_opt_string(s2.name).len() as int,
        ) == encode_opt_string(s2.name),
        bytes.subrange(
            24 + 8 * s2.hashes@.len() as int + encode_opt_string(s2.name).len() as int,
            bytes.len() as int,
        ) == encode_opt_string(s2.filename),
{
    lemma_header_peel(s2);
    lemma_tail_peel(s2);
    let off = 24 + 8 * s2.hashes@.len() as int;
    let nl = encode_opt_string(s2.name).len() as int;
    assert(bytes.subrange(off, off + nl) =~= encode_opt_string(s2.name));
    assert(bytes.subrange(off + nl, bytes.len() as int) =~= encode_opt_string(s2.filename));
}

/// Decode one optional metadata string starting at `pos`; on success the
/// consumed range is exactly the string's canonical encoding.
#[verifier::loop_isolation(false)]
fn read_opt_string(bytes: &Vec<u8>, pos: usize) -> (r: Result<(Option<String>, usize), SketchError
>)
    requires
        pos <= bytes@.len(),
    ensures
        r matches Ok(p) ==> pos < p.1 <= bytes@.len() && bytes@.subrange(pos as int, p.1 as int)
            == encode_opt_string(p.0) && (p.0 matches Some(st) ==> encode_utf8(st@).len()
            <= u64::MAX),
        r is Err ==> r == Result::<(Option<String>, usize), SketchError>::Err(SketchError::Format),
        forall|o: Option<String>|
            (opt_len_ok(o) && pos + (#[trigger] encode_opt_string(o)).len() <= bytes@.len()
                && bytes@.subrange(pos as int, pos + encode_opt_string(o).len())
                == encode_opt_string(o)) ==> (r matches Ok(p) && p.1 == pos + encode_opt_string(
                o,
            ).len() && opt_view(p.0) == opt_view(o)),
{
    if pos >= bytes.len() {
        proof {
            assert forall|o: Option<String>| !(opt_len_ok(o) && pos + (#[trigger] encode_opt_string(
                o,
            )).len() <= bytes@.len() && bytes@.subrange(pos as int, pos + encode_opt_string(
                o,
            ).len()) == encode_opt_string(o)) by {
                lemma_opt_string_shape(o);
            }
        }
        return Err(SketchError::Format);
    }
    let tag = bytes[pos];
    if tag == 0 {
        proof {
            assert(bytes@.subrange(pos as int, pos + 1) =~= encode_opt_string(
                Option::<String>::None,
            ));
            assert forall|o: Option<String>|
                (opt_len_ok(o) && pos + (#[trigger] encode_opt_string(o)).len() <= bytes@.len()
                    && bytes@.subrange(pos as int, pos + encode_opt_string(o).len())
                    == encode_opt_string(o)) implies (pos + encode_opt_string(o).len() == pos + 1
                && opt_view(o) == opt_view(Option::<String>::None)) by {
                lemma_opt_string_shape(o);
                assert(encode_opt_string(o)[0] == bytes@[pos as int]);
            }
        }
        return Ok((None, pos + 1));
    }
    if tag != 1 {
        proof {
            assert forall|o: Option<String>| !(opt_len_ok(o) && pos + (#[trigger] encode_opt_string(
                o,
            )).len() <= bytes@.len() && bytes@.subrange(pos as int, pos + encode_opt_string(
                o,
            ).len()) == encode_opt_string(o)) by {
                lemma_opt_string_shape(o);
                if opt_len_ok(o) && pos + encode_opt_string(o).len() <= bytes@.len()
                    && bytes@.subrange(pos as int, pos + encode_opt_string(o).len())
                    == encode_opt_string(o) {
                    assert(encode_opt_string(o)[0] == bytes@[pos as int]);
                }
            }
        }
        return Err(SketchError::Format);
    }
    if bytes.len() - (pos + 1) < 8 {
        proof {
            assert forall|o: Option<String>| !(opt_len_ok(o) && pos + (#[trigger] encode_opt_string(
                o,
            )).len() <= bytes@.len() && bytes@.subrange(pos as int, pos + encode_opt_string(
                o,
            ).len()) == encode_opt_string(o)) by {
                lemma_opt_string_shape(o);
                if opt_len_ok(o) && pos + encode_opt_string(o).len() <= bytes@.len()
                    && bytes@.subrange(pos as int, pos + encode_opt_string(o).len())
                    == encode_opt_string(o) {
                    assert(encode_opt_string(o)[0] == bytes@[pos as int]);
                }
            }
        }
        return Err(SketchError::Format);
    }
    let lv = read_u64_le(bytes, pos + 1);
    proof {
        lemma_le_bytes_le_val(bytes@.subrange(pos + 1, pos + 9));
        assert forall|o: Option<String>|
            (opt_len_ok(o) && pos + (#[trigger] encode_opt_string(o)).len() <= bytes@.len()
                && bytes@.subrange(pos as int, pos + encode_opt_string(o).len())
                == encode_opt_string(o)) implies (o matches Some(so) && encode_utf8(so@).len()
            == lv as int && encode_opt_string(o).len() == 9 + lv as int) by {
            lemma_opt_string_shape(o);
            assert(encode_opt_string(o)[0] == bytes@[pos as int]);
            let so = o.unwrap();
            let el = encode_utf8(so@).len() as int;
            assert(le_bytes(el, 8) =~= bytes@.subrange(pos + 1, pos + 9));
            lemma_le_val_le_bytes_u64(el);
        }
    }
    if lv > (bytes.len() - (pos + 9)) as u64 {
        return Err(SketchError::Format);
    }
    let l = lv as usize;
    let mut sb: Vec<u8> = Vec::new();
    let mut j: usize = 0;
    proof {
        assert(sb@ =~= bytes@.subrange(pos + 9, pos + 9 + 0));
    }
    while j < l
        invariant
            j <= l,
            pos + 9 + l <= bytes@.len(),
            sb@ == bytes@.subrange(pos + 9, pos + 9 + j),
        decreases l - j,
    {
        sb.push(bytes[pos + 9 + j]);
        proof {
            assert(bytes@.subrange(pos + 9, pos + 9 + j + 1) =~= bytes@.subrange(
                pos + 9,
                pos + 9 + j,
            ).push(bytes@[pos + 9 + j]));
        }
        j += 1;
    }
    let ghost sbv = sb@;
    let parsed = string_from_utf8(sb);
    proof {
        assert forall|o: Option<String>|
            (opt_len_ok(o) && pos + (#[trigger] encode_opt_string(o)).len() <= bytes@.len()
                && bytes@.subrange(pos as int, pos + encode_opt_string(o).len())
                == encode_opt_string(o)) implies (o matches Some(so) && encode_utf8(so@)
            == sbv) by {
            lemma_opt_string_shape(o);
            assert(encode_opt_string(o)[0] == bytes@[pos as int]);
            let so = o.unwrap();
            assert(encode_utf8(so@) =~= bytes@.subrange(pos + 9, pos + 9 + l));
        }
    }
    match parsed {
        None => {
            proof {
                assert forall|o: Option<String>| !(opt_len_ok(o) && pos
                    + (#[trigger] encode_opt_string(o)).len() <= bytes@.len() && bytes@.subrange(
                    pos as int,
                    pos + encode_opt_string(o).len(),
                ) == encode_opt_string(o)) by {
                    if opt_len_ok(o) && pos + encode_opt_string(o).len() <= bytes@.len()
                        && bytes@.subrange(pos as int, pos + encode_opt_string(o).len())
                        == encode_opt_string(o) {
                        let so = o.unwrap();
                        encode_utf8_valid_utf8(so@);
                    }
                }
            }
            Err(SketchError::Format)
        },
        Some(st) => {
            proof {
                let enc = encode_opt_string(Option::Some(st));
                assert(encode_utf8(st@) == sbv);
                assert(le_bytes(lv as int, 8) =~= bytes@.subrange(pos + 1, pos + 9));
                assert(seq![1u8] =~= bytes@.subrange(pos as int, pos + 1));
                assert(enc =~= bytes@.subrange(pos as int, pos + 9 + l));
                assert forall|o: Option<String>|
                    (opt_len_ok(o) && pos + (#[trigger] encode_opt_string(o)).len()
                        <= bytes@.len() && bytes@.subrange(pos as int, pos + encode_opt_string(
                        o,
                    ).len()) == encode_opt_string(o)) implies (pos + encode_opt_string(o).len()
                    == pos + 9 + l && opt_view(o) == opt_view(Option::Some(st))) by {
                    let so = o.unwrap();
                    assert(encode_utf8(so@) == encode_utf8(st@));
                    encode_utf8_decode_utf8(so@);
                    encode_utf8_decode_utf8(st@);
                }
            }
            Ok((Some(st), pos + 9 + l))
        },
    }
}

/// Decode a sketch from its byte record.
///
/// Every structural constraint is checked: the header fits, each hash is
/// unique and clears the recorded cutoff, the metadata is valid UTF-8, and
/// nothing trails the record. A successful decode is well formed and
/// re-encodes to exactly the input bytes; conversely, decoding succeeds on
/// every record a well-formed sketch encodes to, so a saved sketch always
/// loads back, and by the canonicity of the encoding it loads back as
/// itself.
#[verifier::rlimit(100)]
#[verifier::loop_isolation(false)]
pub fn load_sketch(bytes: &Vec<u8>) -> (r: Result<ScaledMinHash, SketchError>)
    ensures
        r matches Ok(s) ==> s.wf() && encodable(s) && encode_sketch(s) == bytes@,
        r is Err ==> r == Result::<ScaledMinHash, SketchError>::Err(SketchError::Format),
        has_valid_encoding(bytes@) ==> r is Ok,
{
    if bytes.len() < 24 {
        proof {
            assert(!has_valid_encoding(bytes@)) by {
                if has_valid_encoding(bytes@) {
                    let s2 = choose|s2: ScaledMinHash|
                        s2.wf() && encodable(s2) && #[trigger] encode_sketch(s2) == bytes@;
                    lemma_encoding_header_facts(s2, bytes@);
                }
            }
        }
        return Err(SketchError::Format);
    }
    let kv = read_u64_le(bytes, 0);
    let maxv = read_u64_le(bytes, 8);
    let nv = read_u64_le(bytes, 16);
    if kv > usize::MAX as u64 {
        proof {
            assert(!has_valid_encoding(bytes@)) by {
                if has_valid_encoding(bytes@) {
                    let s2 = choose|s2: ScaledMinHash|
                        s2.wf() && encodable(s2) && #[trigger] encode_sketch(s2) == bytes@;
                    lemma_encoding_header_facts(s2, bytes@);
                    assert(kv as int == s2.k as int);
                }
            }
        }
        return Err(SketchError::Format);
    }
    let k = kv as usize;
    let rem = bytes.len() - 24;
    if nv > (rem / 8) as u64 {
        proof {
            assert(!has_valid_encoding(bytes@)) by {
                if has_valid_encoding(bytes@) {
                    let s2 = choose|s2: ScaledMinHash|
                        s2.wf() && encodable(s2) && #[trigger] encode_sketch(s2) == bytes@;
                    lemma_encoding_header_facts(s2, bytes@);
                    let n2 = s2.hashes@.len() as int;
                    assert(nv as int == n2);
                    assert(8 * n2 <= rem as int);
                    lemma_fundamental_div_mod(rem as int, 8);
                    assert(n2 <= rem as int / 8);
                }
            }
        }
        return Err(SketchError::Format);
    }
    let n = nv as usize;
    let mut hs: Vec<u64> = Vec::new();
    let mut i: usize = 0;
    let mut pos: usize = 24;
    proof {
        assert(encode_hashes(hs@) =~= Seq::<u8>::empty());
        assert(encode_hashes(hs@) =~= bytes@.subrange(24, pos as int));
    }
    while i < n
        invariant
            i <= n,
            pos == 24 + 8 * i,
            24 + 8 * n <= bytes@.len(),
            hs@.len() == i,
            hs@.no_duplicates(),
            forall|t: int| 0 <= t < hs@.len() ==> hs@[t] <= maxv,
            encode_hashes(hs@) == bytes@.subrange(24, pos as int),
        decreases n - i,
    {
        let h = read_u64_le(bytes, pos);
        proof {
            if has_valid_encoding(bytes@) {
                let s2 = choose|s2: ScaledMinHash|
                    s2.wf() && encodable(s2) && #[trigger] encode_sketch(s2) == bytes@;
                lemma_encoding_header_facts(s2, bytes@);
                lemma_encoding_hash_facts(s2, bytes@, i as int);
                assert(h == s2.hashes@[i as int]);
                assert(maxv == s2.max_hash);
            }
        }
        if h > maxv {
            proof {
                assert(!has_valid_encoding(bytes@)) by {
                    if has_valid_encoding(bytes@) {
                        let s2 = choose|s2: ScaledMinHash|
                            s2.wf() && encodable(s2) && #[trigger] encode_sketch(s2) == bytes@;
                        lemma_encoding_header_facts(s2, bytes@);
                        lemma_encoding_hash_facts(s2, bytes@, i as int);
                    }
                }
            }
            return Err(SketchError::Format);
        }
        if crate::sketch::vec_contains(&hs, h) {
            proof {
                assert(!has_valid_encoding(bytes@)) by {
                    if has_valid_encoding(bytes@) {
                        let s2 = choose|s2: ScaledMinHash|
                            s2.wf() && encodable(s2) && #[trigger] encode_sketch(s2) == bytes@;
                        lemma_encoding_header_facts(s2, bytes@);
                        lemma_encoding_hash_facts(s2, bytes@, i as int);
                        let t = choose|t: int| 0 <= t < hs@.len() && hs@[t] == h;
                        lemma_encode_hashes_index(hs@, t);
                        lemma_le_val_le_bytes_u64(hs@[t] as int);
                        assert(encode_hashes(hs@).subrange(8 * t, 8 * t + 8) =~= bytes@.subrange(
                            24 + 8 * t,
                            24 + 8 * t + 8,
                        ));
                        lemma_encoding_hash_facts(s2, bytes@, t);
                        assert(s2.hashes@[t] == s2.hashes@[i as int]);
                    }
                }
            }
            return Err(SketchError::Format);
        }
        proof {
            assert(!hs@.to_set().contains(h) ==> !hs@.contains(h));
            lemma_le_bytes_le_val(bytes@.subrange(pos as int, pos + 8));
            assert(le_bytes(h as int, 8) =~= bytes@.subrange(pos as int, pos + 8));
            lemma_encode_hashes_snoc(hs@, h);
            assert(encode_hashes(hs@.push(h)) =~= bytes@.subrange(24, pos + 8));
        }
        hs.push(h);
        pos += 8;
        i += 1;
    }
    let name_res = read_opt_string(bytes, pos);
    proof {
        if has_valid_encoding(bytes@) {
            let s2 = choose|s2: ScaledMinHash|
                s2.wf() && encodable(s2) && #[trigger] encode_sketch(s2) == bytes@;
            lemma_encoding_header_facts(s2, bytes@);
            lemma_encoding_tail_facts(s2, bytes@);
            assert(pos as int == 24 + 8 * s2.hashes@.len() as int);
            let eo = encode_opt_string(s2.name);
            assert(opt_len_ok(s2.name));
            assert(pos + eo.len() <= bytes@.len());
            assert(bytes@.subrange(pos as int, pos + eo.len()) == eo);
            assert(name_res matches Ok(p) && p.1 == pos + eo.len() && opt_view(p.0) == opt_view(
                s2.name,
            ));
        }
    }
    let (name, pos2) = match name_res {
        Err(_) => {
            return Err(SketchError::Format);
        },
        Ok(p) => p,
    };
    let filename_res = read_opt_string(bytes, pos2);
    proof {
        if has_valid_encoding(bytes@) {
            let s2 = choose|s2: ScaledMinHash|
                s2.wf() && encodable(s2) && #[trigger] encode_sketch(s2) == bytes@;
            lemma_encoding_header_facts(s2, bytes@);
            lemma_encoding_tail_facts(s2, bytes@);
            assert(pos2 as int == 24 + 8 * s2.hashes@.len() as int + encode_opt_string(
                s2.name,
            ).len() as int);
            let eo = encode_opt_string(s2.filename);
            assert(opt_len_ok(s2.filename));
            assert(pos2 + eo.len() <= bytes@.len());
            assert(bytes@.subrange(pos2 as int, pos2 + eo.len()) == eo);
            assert(filename_res matches Ok(p) && p.1 == pos2 + eo.len() && opt_view(p.0)
                == opt_view(s2.filename));
        }
    }
    let (filename, pos3) = match filename_res {
        Err(_) => {
            return Err(SketchError::Format);
        },
        Ok(p) => p,
    };
    if pos3 != bytes.len() {
        proof {
            assert(!has_valid_encoding(bytes@)) by {
                if has_valid_encoding(bytes@) {
                    let s2 = choose|s2: ScaledMinHash|
                        s2.wf() && encodable(s2) && #[trigger] encode_sketch(s2) == bytes@;
                    lemma_encoding_header_facts(s2, bytes@);
                }
            }
        }
        return Err(SketchError::Format);
    }
    let s = ScaledMinHash { hashes: hs, max_hash: maxv, k, name, filename };
    proof {
        lemma_le_bytes_le_val(bytes@.subrange(0, 8));
        lemma_le_bytes_le_val(bytes@.subrange(8, 16));
        lemma_le_bytes_le_val(bytes@.subrange(16, 24));
        assert(le_bytes(s.k as int, 8) =~= bytes@.subrange(0, 8));
        assert(le_bytes(s.max_hash as int, 8) =~= bytes@.subrange(8, 16));
        assert(le_bytes(s.hashes@.len() as int, 8) =~= bytes@.subrange(16, 24));
        assert(encode_sketch(s) =~= bytes@);
    }
    Ok(s)
}

/// The encoding is canonical: two sketches with the same byte record agree
/// on every field a sketch's behaviour depends on — `k`, `max_hash`, the
/// stored hash sequence, and both metadata views. Together with the decoder's
/// guarantee that a loaded sketch re-encodes to its input bytes, this is the
/// round trip: loading a saved sketch reproduces it.
pub proof fn lemma_encode_injective(a: ScaledMinHash, b: ScaledMinHash)
    requires
        encode_sketch(a) == encode_sketch(b),
        encodable(a),
        encodable(b),
    ensures
        a.k == b.k,
        a.max_hash == b.max_hash,
        a.hashes@ == b.hashes@,
        opt_view(a.name) == opt_view(b.name),
        opt_view(a.filename) == opt_view(b.filename),
{
    lemma_header_peel(a);
    lemma_header_peel(b);
    let ea = encode_sketch(a);
    assert(opt_len_ok(a.name) && opt_len_ok(b.name) && opt_len_ok(a.filename) && opt_len_ok(
        b.filename,
    ));
    let eb = encode_sketch(b);
    assert(a.k == b.k) by {
        lemma_le_val_le_bytes_u64(a.k as int);
        lemma_le_val_le_bytes_u64(b.k as int);
        assert(ea.subrange(0, 8) == eb.subrange(0, 8));
    }
    assert(a.max_hash == b.max_hash) by {
        lemma_le_val_le_bytes_u64(a.max_hash as int);
        lemma_le_val_le_bytes_u64(b.max_hash as int);
        assert(ea.subrange(8, 16) == eb.subrange(8, 16));
    }
    assert(a.hashes@.len() == b.hashes@.len()) by {
        lemma_le_val_le_bytes_u64(a.hashes@.len() as int);
        lemma_le_val_le_bytes_u64(b.hashes@.len() as int);
        assert(ea.subrange(16, 24) == eb.subrange(16, 24));
    }
    let n = a.hashes@.len() as int;
    assert forall|t: int| 0 <= t < n implies a.hashes@[t] == b.hashes@[t] by {
        lemma_hash_slot(a, t);
        lemma_hash_slot(b, t);
        lemma_le_val_le_bytes_u64(a.hashes@[t] as int);
        lemma_le_val_le_bytes_u64(b.hashes@[t] as int);
        assert(ea.subrange(24 + 8 * t, 24 + 8 * t + 8) == eb.subrange(24 + 8 * t, 24 + 8 * t + 8));
    }
    assert(a.hashes@ =~= b.hashes@);
    lemma_tail_peel(a);
    lemma_tail_peel(b);
    let tail_at = 24 + 8 * n;
    assert(ea.subrange(tail_at, ea.len() as int) == eb.subrange(tail_at, eb.len() as int));
    lemma_opt_string_injective(
        a.name,
        b.name,
        a.filename,
        b.filename,
        ea.subrange(tail_at, ea.len() as int),
    );
}

/// `le_val` recovers any value that fits 8 bytes.
proof fn lemma_le_val_le_bytes_u64(v: int)
    requires
        0 <= v <= u64::MAX,
    ensures
        le_val(le_bytes(v, 8)) == v,
{
    lemma_pow256_u64();
    lemma_le_val_le_bytes(v, 8);
}

/// The three header words sit at their fixed offsets.
proof fn lemma_header_peel(s: ScaledMinHash)
    ensures
        encode_sketch(s).subrange(0, 8) =~= le_bytes(s.k as int, 8),
        encode_sketch(s).subrange(8, 16) =~= le_bytes(s.max_hash as int, 8),
        encode_sketch(s).subrange(16, 24) =~= le_bytes(s.hashes@.len() as int, 8),
        encode_sketch(s).len() == 24 + 8 * s.hashes@.len() + encode_opt_string(s.name).len()
            + encode_opt_string(s.filename).len(),
{
    lemma_le_bytes_len(s.k as int, 8);
    lemma_le_bytes_len(s.max_hash as int, 8);
    lemma_le_bytes_len(s.hashes@.len() as int, 8);
    lemma_encode_hashes_len(s.hashes@);
}

/// The hash at index `t` sits at its fixed offset.
proof fn lemma_hash_slot(s: ScaledMinHash, t: int)
    requires
        0 <= t < s.hashes@.len(),
    ensures
        encode_sketch(s).subrange(24 + 8 * t, 24 + 8 * t + 8) =~= le_bytes(s.hashes@[t] as int, 8),
{
    lemma_header_peel(s);
    lemma_encode_hashes_len(s.hashes@);
    lemma_encode_hashes_index(s.hashes@, t);
    assert(encode_sketch(s).subrange(24 + 8 * t, 24 + 8 * t + 8) =~= encode_hashes(
        s.hashes@,
    ).subrange(8 * t, 8 * t + 8));
}

/// The metadata tail sits after the hashes.
proof fn lemma_tail_peel(s: ScaledMinHash)
    ensures
        encode_sketch(s).subrange(
            24 + 8 * s.hashes@.len() as int,
            encode_sketch(s).len() as int,
        ) =~= encode_opt_string(s.name) + encode_opt_string(s.filename),
{
    lemma_header_peel(s);
    lemma_encode_hashes_len(s.hashes@);
}

/// Two pairs of optional strings with the same concatenated encoding agree.
proof fn lemma_opt_string_injective(
    n1: Option<String>,
    n2: Option<String>,
    f1: Option<String>,
    f2: Option<String>,
    tail: Seq<u8>,
)
    requires
        encode_opt_string(n1) + encode_opt_string(f1) == tail,
        encode_opt_string(n2) + encode_opt_string(f2) == tail,
        opt_len_ok(n1),
        opt_len_ok(n2),
        opt_len_ok(f1),
        opt_len_ok(f2),
    ensures
        opt_view(n1) == opt_view(n2),
        opt_view(f1) == opt_view(f2),
{
    lemma_opt_string_prefix(n1, n2, f1, f2, tail);
    let l = encode_opt_string(n1).len() as int;
    assert(encode_opt_string(n1).len() == encode_opt_string(n2).len());
    assert(encode_opt_string(f1) =~= tail.subrange(l, tail.len() as int));
    assert(encode_opt_string(f2) =~= tail.subrange(l, tail.len() as int));
    lemma_opt_string_value(f1, f2);
}

/// The first optional string of a concatenation determines itself: its tag
/// and, when present, its recorded length fix its extent.
proof fn lemma_opt_string_prefix(
    n1: Option<String>,
    n2: Option<String>,
    f1: Option<String>,
    f2: Option<String>,
    tail: Seq<u8>,
)
    requires
        encode_opt_string(n1) + encode_opt_string(f1) == tail,
        encode_opt_string(n2) + encode_opt_string(f2) == tail,
        opt_len_ok(n1),
        opt_len_ok(n2),
    ensures
        opt_view(n1) == opt_view(n2),
        encode_opt_string(n1).len() == encode_opt_string(n2).len(),
{
    lemma_opt_string_shape(n1);
    lemma_opt_string_shape(n2);
    match (n1, n2) {
        (Option::None, Option::None) => {
        },
        (Option::None, Option::Some(s2)) => {
            assert(tail[0] == 0u8);
            assert(tail[0] == 1u8);
        },
        (Option::Some(s1), Option::None) => {
            assert(tail[0] == 1u8);
            assert(tail[0] == 0u8);
        },
        (Option::Some(s1), Option::Some(s2)) => {
            let e1 = encode_utf8(s1@);
            let e2 = encode_utf8(s2@);
            assert(le_bytes(e1.len() as int, 8) =~= tail.subrange(1, 9));
            assert(le_bytes(e2.len() as int, 8) =~= tail.subrange(1, 9));
            lemma_le_val_le_bytes_u64(e1.len() as int);
            lemma_le_val_le_bytes_u64(e2.len() as int);
            assert(e1.len() == e2.len());
            assert(e1 =~= tail.subrange(9, 9 + e1.len() as int));
            assert(e2 =~= tail.subrange(9, 9 + e2.len() as int));
            encode_utf8_decode_utf8(s1@);
            encode_utf8_decode_utf8(s2@);
            assert(s1@ == s2@);
        },
    }
}

/// Same-encoding optional strings have the same view.
/// One optional string's stored byte length fits its slot.
pub open spec fn opt_len_ok(o: Option<String>) -> bool {
    o matches Some(st) ==> encode_utf8(st@).len() <= u64::MAX
}

proof fn lemma_opt_string_value(f1: Option<String>, f2: Option<String>)
    requires
        encode_opt_string(f1) == encode_opt_string(f2),
        opt_len_ok(f1),
        opt_len_ok(f2),
    ensures
        opt_view(f1) == opt_view(f2),
{
    lemma_opt_string_shape(f1);
    lemma_opt_string_shape(f2);
    match (f1, f2) {
        (Option::None, Option::None) => {
        },
        (Option::None, Option::Some(s2)) => {
            assert(encode_opt_string(f1)[0] == 0u8);
            assert(encode_opt_string(f2)[0] == 1u8);
        },
        (Option::Some(s1), Option::None) => {
            assert(encode_opt_string(f1)[0] == 1u8);
            assert(encode_opt_string(f2)[0] == 0u8);
        },
        (Option::Some(s1), Option::Some(s2)) => {
            let e = encode_opt_string(f1);
            let e1 = encode_utf8(s1@);
            let e2 = encode_utf8(s2@);
            assert(le_bytes(e1.len() as int, 8) =~= e.subrange(1, 9));
            assert(le_bytes(e2.len() as int, 8) =~= e.subrange(1, 9));
            lemma_le_val_le_bytes_u64(e1.len() as int);
            lemma_le_val_le_bytes_u64(e2.len() as int);
            assert(e1.len() == e2.len());
            assert(e1 =~= e.subrange(9, 9 + e1.len() as int));
            assert(e2 =~= e.subrange(9, 9 + e2.len() as int));
            encode_utf8_decode_utf8(s1@);
            encode_utf8_decode_utf8(s2@);
            assert(s1@ == s2@);
        },
    }
}

/// An optional string's encoding starts with its tag, is at least one byte,
/// and when present carries its length behind the tag.
proof fn lemma_opt_string_shape(o: Option<String>)
    ensures
        encode_opt_string(o).len() >= 1,
        o is None ==> encode_opt_string(o) =~= seq![0u8],
        o matches Some(s) ==> encode_opt_string(o)[0] == 1u8 && encode_opt_string(o).len() == 9
            + encode_utf8(s@).len() && encode_opt_string(o).subrange(1, 9) =~= le_bytes(
            encode_utf8(s@).len() as int,
            8,
        ) && encode_opt_string(o).subrange(
            9,
            encode_opt_string(o).len() as int,
        ) =~= encode_utf8(s@),
{
    match o {
        Option::None => {
        },
        Option::Some(s) => {
            lemma_le_bytes_len(encode_utf8(s@).len() as int, 8);
        },
    }
}

} // verus!
