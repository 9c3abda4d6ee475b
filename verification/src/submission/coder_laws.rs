//! What the optimized blob coder guarantees: its conversions undo each other,
//! and decoding what was encoded gives the data back.
use vstd::prelude::*;
use crate::submission::bits::{
    bit_of, bit_value, bits_of_bytes, byte_of_bits, bytes_of_bits,
    lemma_bit_of_byte_of_bits, lemma_byte_of_bits_of_byte, lemma_bytes_bits_roundtrip,
};
use crate::submission::optimized_blob_coder::{
    be_bytes, be_value, bits_of_fes, claimed_bytes, claimed_data, claimed_fes,
    decode_fes, div_ceil, fe_data_bit, fe_of_chunk, fe_window, fes_for_bits, fes_of_bits,
    length_prefix, payload_bits, prepend_items, DecodeError, MAX_ALLOCATION_SIZE, blob_fes,
    decode_blobs, decoding_runs_out, encoded_fes, header_fe, header_bits, is_valid_fe,
    lemma_fe_of_chunk_valid, required_fes,
};

verus! {

/// Unpacking the field elements of a packed stream gives the stream back,
/// padded with zero bits up to a whole number of field elements.
pub proof fn lemma_fes_bits_roundtrip(bits: Seq<bool>)
    ensures
        bits_of_fes(fes_of_bits(bits)).len() == 254 * fes_for_bits(bits.len()),
        forall|i: int|
            0 <= i < 254 * fes_for_bits(bits.len()) ==> #[trigger] bits_of_fes(fes_of_bits(bits))[i]
                == (i < bits.len() && bits[i]),
{
    let fes = fes_of_bits(bits);
    assert forall|i: int| 0 <= i < 254 * fes_for_bits(bits.len()) implies #[trigger] bits_of_fes(fes)[i]
        == (i < bits.len() && bits[i]) by {
        let c = i / 254;
        let r = i % 254;
        let k = (r + 2) / 8;
        let t = (r + 2) % 8;
        let w = fe_window(bits, c);
        assert(0 <= c < fes.len());
        assert(fes[c] == fe_of_chunk(bits, c));
        assert(0 <= k < 32);
        assert(fe_of_chunk(bits, c)[k] == byte_of_bits(w, k));
        lemma_bit_of_byte_of_bits(w, k, t);
        assert(8 * k + t == r + 2);
        assert(bits_of_fes(fes)[i] == fe_data_bit(fes[c], r));
        assert(i == 254 * c + r);
        if i < bits.len() {
            assert(w[r + 2] == bits[i]);
        } else {
            assert(!(0 <= r + 2 < w.len()) || !w[r + 2]);
        }
    }
}

proof fn lemma_top_bits_clear(x: u8)
    by (bit_vector)
    requires
        x & 0xC0u8 == 0,
    ensures
        (x >> 7u8) & 1u8 != 1u8,
        (x >> 6u8) & 1u8 != 1u8,
{
}

/// Packing the bits read from valid field elements gives the field elements back.
pub proof fn lemma_bits_fes_roundtrip(fes: Seq<Seq<u8>>)
    requires
        forall|g: int| 0 <= g < fes.len() ==> (#[trigger] fes[g]).len() == 32 && is_valid_fe(fes[g]),
    ensures
        fes_of_bits(bits_of_fes(fes)) == fes,
{
    let bits = bits_of_fes(fes);
    let n = fes.len();
    assert(fes_for_bits(bits.len()) == n) by (nonlinear_arith)
        requires
            bits.len() == n * 254,
            fes_for_bits(bits.len()) == (bits.len() + 253) / 254,
    ;
    assert forall|c: int| 0 <= c < n implies #[trigger] fes_of_bits(bits)[c] == fes[c] by {
        let fe = fes[c];
        let w = fe_window(bits, c);
        assert(bits.len() >= 254 * c + 254) by (nonlinear_arith)
            requires
                bits.len() == n * 254,
                0 <= c < n,
        ;
        assert(w.len() == 256);
        assert forall|k: int| 0 <= k < 32 implies #[trigger] fe_of_chunk(bits, c)[k] == fe[k] by {
            assert forall|t: int| 0 <= t < 8 implies 0 <= #[trigger] (8 * k + t) < w.len() by {}
            assert forall|t: int| 0 <= t < 8 implies w[8 * k + t] == bit_of(fe[k], t) by {
                let q = 8 * k + t;
                if q < 2 {
                    assert(k == 0);
                    lemma_top_bits_clear(fe[0]);
                    assert(!w[q]);
                } else {
                    let i = 254 * c + (q - 2);
                    assert(w[q] == bits[i]);
                    assert(i / 254 == c && i % 254 == q - 2) by (nonlinear_arith)
                        requires
                            i == 254 * c + (q - 2),
                            0 <= q - 2 < 254,
                            0 <= c,
                    ;
                    assert(bits[i] == fe_data_bit(fes[c], q - 2));
                    assert(q / 8 == k && q % 8 == t);
                }
            }
            lemma_byte_of_bits_of_byte(w, k, fe[k]);
        }
        assert(fe_of_chunk(bits, c) =~= fe);
    }
    assert(fes_of_bits(bits) =~= fes);
}

/// The bits of a packed stream, read back from its field elements.
pub proof fn lemma_fes_bits_prefix(bits: Seq<bool>, a: int, b: int)
    requires
        0 <= a <= b <= bits.len(),
    ensures
        bits_of_fes(fes_of_bits(bits)).subrange(a, b) == bits.subrange(a, b),
{
    lemma_fes_bits_roundtrip(bits);
    assert(bits.len() <= 254 * fes_for_bits(bits.len()));
    assert(bits_of_fes(fes_of_bits(bits)).subrange(a, b) =~= bits.subrange(a, b));
}

/// A 32-bit number is read back from its big-endian bytes.
pub proof fn lemma_be_roundtrip(n: u32)
    ensures
        be_value(be_bytes(n)) == n,
        be_bytes(n).len() == 4,
{
    let b = be_bytes(n);
    assert(b[0] == n / 16777216);
    assert(b[1] == (n / 65536) % 256);
    assert(b[2] == (n / 256) % 256);
    assert(b[3] == n % 256);
    assert(be_value(b) == n) by (nonlinear_arith)
        requires
            b[0] == n / 16777216,
            b[1] == (n / 65536) % 256,
            b[2] == (n / 256) % 256,
            b[3] == n % 256,
            n < 4294967296,
    ;
}

/// The number of field elements one encoded piece of data occupies is the
/// number decoding reads for it.
proof fn lemma_piece_fes(n: int)
    requires
        0 < n,
    ensures
        1 + (if 8 * n > 222 {
            div_ceil(8 * n - 222, 254)
        } else {
            0
        }) == fes_for_bits((32 + 8 * n) as nat),
{
}

/// The field elements one piece of data is encoded into (length prefix included).
pub open spec fn piece_fes(data: Seq<u8>) -> Seq<Seq<u8>> {
    fes_of_bits(payload_bits(true, data))
}

/// Decoding a stream that starts with an encoded piece of data reads exactly
/// that piece, then goes on with the rest of the stream.
proof fn lemma_piece_prefix(data: Seq<u8>, rest: Seq<Seq<u8>>)
    requires
        0 < data.len() <= MAX_ALLOCATION_SIZE,
    ensures
        piece_fes(data).len() >= 1,
        claimed_bytes(true, piece_fes(data) + rest) == data.len(),
{
    let n: int = data.len() as int;
    let p = payload_bits(true, data);
    let e = piece_fes(data);
    let s = e + rest;
    let prefix = be_bytes(n as u32);
    assert(bits_of_bytes(prefix).len() == 32);
    assert(p.len() == 32 + 8 * n);
    assert(s[0] == e[0]);
    lemma_fes_bits_prefix(p, 0, 32);
    assert(bits_of_fes(seq![s[0]]).take(32) =~= bits_of_fes(e).subrange(0, 32));
    assert(p.subrange(0, 32) =~= bits_of_bytes(prefix));
    lemma_bytes_bits_roundtrip(prefix);
    lemma_be_roundtrip(n as u32);
    assert(length_prefix(s[0]) == n);
}

proof fn lemma_piece_data(data: Seq<u8>)
    requires
        0 < data.len() <= MAX_ALLOCATION_SIZE,
    ensures
        bytes_of_bits(bits_of_fes(piece_fes(data)).subrange(32, 32 + 8 * data.len() as int)) == data,
{
    let n: int = data.len() as int;
    let p = payload_bits(true, data);
    assert(bits_of_bytes(be_bytes(n as u32)).len() == 32);
    assert(p.len() == 32 + 8 * n);
    lemma_fes_bits_prefix(p, 32, 32 + 8 * n);
    assert(p.subrange(32, 32 + 8 * n) =~= bits_of_bytes(data));
    lemma_bytes_bits_roundtrip(data);
}

/// Decoding a stream that starts with an encoded piece of data reads exactly
/// that piece, then goes on with the rest of the stream.
#[verifier::rlimit(40)]
pub proof fn lemma_decode_piece(data: Seq<u8>, rest: Seq<Seq<u8>>)
    requires
        0 < data.len() <= MAX_ALLOCATION_SIZE,
    ensures
        claimed_bytes(true, piece_fes(data) + rest) == data.len(),
        claimed_fes(true, piece_fes(data) + rest) == piece_fes(data).len(),
        claimed_data(true, piece_fes(data) + rest) == data,
        decode_fes(true, piece_fes(data) + rest) == prepend_items(seq![data], decode_fes(true, rest)),
{
    let n: int = data.len() as int;
    let e = piece_fes(data);
    let s = e + rest;
    lemma_piece_prefix(data, rest);
    assert(bits_of_bytes(be_bytes(n as u32)).len() == 32);
    assert(payload_bits(true, data).len() == 32 + 8 * n);
    lemma_piece_fes(n);
    assert(claimed_fes(true, s) == e.len());
    assert(s.take(e.len() as int) =~= e);
    lemma_piece_data(data);
    assert(claimed_data(true, s) == data);
    assert(s.skip(e.len() as int) =~= rest);
}

/// The field elements of several pieces of data, encoded one after the other.
pub open spec fn pieces_fes(items: Seq<Seq<u8>>) -> Seq<Seq<u8>>
    decreases items.len(),
{
    if items.len() == 0 {
        Seq::empty()
    } else {
        piece_fes(items[0]) + pieces_fes(items.skip(1))
    }
}

/// What a fresh coder writes for several pieces of data coded one after the other.
pub open spec fn encode_stream(header_prepended: bool, items: Seq<Seq<u8>>) -> Seq<Seq<u8>>
    decreases items.len(),
{
    if items.len() == 0 {
        Seq::empty()
    } else {
        encoded_fes(true, header_prepended, items[0]) + encode_stream(true, items.skip(1))
    }
}

/// The all-zero field element.
pub open spec fn zero_fe() -> Seq<u8> {
    Seq::new(32, |i: int| 0u8)
}

/// `m` all-zero field elements: the unused rest of the last blob.
pub open spec fn zero_fes(m: nat) -> Seq<Seq<u8>> {
    Seq::new(m, |i: int| zero_fe())
}

/// Whether every piece has between 1 and `MAX_ALLOCATION_SIZE` bytes.
pub open spec fn decodable_pieces(items: Seq<Seq<u8>>) -> bool {
    forall|i: int| 0 <= i < items.len() ==> 0 < #[trigger] items[i].len() <= MAX_ALLOCATION_SIZE
}

proof fn lemma_zero_byte_bits(s: u8)
    by (bit_vector)
    ensures
        (0u8 >> s) & 1u8 != 1u8,
{
}

/// An all-zero field element claims a length of 0.
proof fn lemma_zero_fe_prefix()
    ensures
        length_prefix(zero_fe()) == 0,
{
    let bits = bits_of_fes(seq![zero_fe()]).take(32);
    assert forall|i: int| 0 <= i < 32 implies !#[trigger] bits[i] by {
        let t = (i + 2) % 8;
        lemma_zero_byte_bits((7 - t) as u8);
    }
    reveal_with_fuel(crate::submission::bits::digits, 9);
    let bytes = bytes_of_bits(bits);
    assert(bytes.len() == 4);
    assert(bytes[0] == 0);
    assert(bytes[1] == 0);
    assert(bytes[2] == 0);
    assert(bytes[3] == 0);
}

/// Decoding stops at the zero field elements that fill the rest of a blob.
proof fn lemma_decode_zeros(m: nat)
    ensures
        decode_fes(true, zero_fes(m)) == Ok::<Seq<Seq<u8>>, DecodeError>(Seq::empty()),
{
    if m > 0 {
        lemma_zero_fe_prefix();
        assert(zero_fes(m)[0] == zero_fe());
    }
}

/// Decoding pieces of data encoded one after the other, followed by zero
/// field elements, gives the pieces back.
pub proof fn lemma_decode_pieces(items: Seq<Seq<u8>>, m: nat)
    requires
        decodable_pieces(items),
    ensures
        decode_fes(true, pieces_fes(items) + zero_fes(m)) == Ok::<Seq<Seq<u8>>, DecodeError>(items),
    decreases items.len(),
{
    if items.len() == 0 {
        assert(pieces_fes(items) + zero_fes(m) =~= zero_fes(m));
        lemma_decode_zeros(m);
        assert(items =~= Seq::<Seq<u8>>::empty());
    } else {
        let rest = pieces_fes(items.skip(1)) + zero_fes(m);
        assert(decodable_pieces(items.skip(1)));
        lemma_decode_pieces(items.skip(1), m);
        assert(pieces_fes(items) + zero_fes(m) =~= piece_fes(items[0]) + rest);
        lemma_decode_piece(items[0], rest);
        assert(seq![items[0]] + items.skip(1) =~= items);
    }
}

/// Every field element of encoded pieces has its top two bits clear.
proof fn lemma_pieces_valid(items: Seq<Seq<u8>>)
    ensures
        forall|g: int| 0 <= g < pieces_fes(items).len() ==> is_valid_fe(#[trigger] pieces_fes(items)[g]),
    decreases items.len(),
{
    if items.len() > 0 {
        lemma_pieces_valid(items.skip(1));
        let e = piece_fes(items[0]);
        assert forall|g: int| 0 <= g < e.len() implies is_valid_fe(#[trigger] e[g]) by {
            lemma_fe_of_chunk_valid(payload_bits(true, items[0]), g);
        }
        let all = pieces_fes(items);
        assert forall|g: int| 0 <= g < all.len() implies is_valid_fe(#[trigger] all[g]) by {
            if g < e.len() {
                assert(all[g] == e[g]);
            } else {
                assert(all[g] == pieces_fes(items.skip(1))[g - e.len()]);
            }
        }
    }
}

/// Every field element the coder writes, the header among them, has its top
/// two bits clear, so it is below the BLS12-381 scalar field modulus.
pub proof fn lemma_encoded_fes_valid(prepend_length: bool, header_prepended: bool, data: Seq<u8>)
    ensures
        forall|g: int|
            0 <= g < encoded_fes(prepend_length, header_prepended, data).len() ==> is_valid_fe(
                #[trigger] encoded_fes(prepend_length, header_prepended, data)[g],
            ),
{
    let e = encoded_fes(prepend_length, header_prepended, data);
    let h: Seq<Seq<u8>> = if header_prepended {
        Seq::empty()
    } else {
        seq![header_fe()]
    };
    let p: Seq<Seq<u8>> = if data.len() == 0 {
        Seq::empty()
    } else {
        fes_of_bits(payload_bits(prepend_length, data))
    };
    assert(e == h + p);
    assert forall|g: int| 0 <= g < e.len() implies is_valid_fe(#[trigger] e[g]) by {
        if g < h.len() {
            lemma_fe_of_chunk_valid(header_bits(), 0);
            assert(e[g] == header_fe());
        } else {
            lemma_fe_of_chunk_valid(payload_bits(prepend_length, data), g - h.len());
            assert(e[g] == p[g - h.len()]);
        }
    }
}

/// A fresh coder writes the header, then the encoded pieces.
pub proof fn lemma_encode_stream(items: Seq<Seq<u8>>, header_prepended: bool)
    requires
        decodable_pieces(items),
        items.len() > 0,
    ensures
        encode_stream(header_prepended, items) == (if header_prepended {
            Seq::empty()
        } else {
            seq![header_fe()]
        }) + pieces_fes(items),
    decreases items.len(),
{
    assert(decodable_pieces(items.skip(1)));
    let h: Seq<Seq<u8>> = if header_prepended {
        Seq::empty()
    } else {
        seq![header_fe()]
    };
    assert(items[0].len() > 0);
    assert(encoded_fes(true, header_prepended, items[0]) == h + piece_fes(items[0]));
    if items.len() == 1 {
        assert(items.skip(1).len() == 0);
        assert(pieces_fes(items.skip(1)) =~= Seq::<Seq<u8>>::empty());
        assert(encode_stream(true, items.skip(1)) =~= Seq::<Seq<u8>>::empty());
    } else {
        lemma_encode_stream(items.skip(1), true);
        assert(encode_stream(true, items.skip(1)) =~= pieces_fes(items.skip(1)));
    }
    assert(encode_stream(header_prepended, items) == (h + piece_fes(items[0])) + pieces_fes(items.skip(1)));
    assert(pieces_fes(items) == piece_fes(items[0]) + pieces_fes(items.skip(1)));
    assert(encode_stream(header_prepended, items) =~= (if header_prepended {
        Seq::empty()
    } else {
        seq![header_fe()]
    }) + pieces_fes(items));
}

/// Decoding the blobs a fresh length-prefixing coder filled with pieces of data
/// (the unused rest of the last blob left zero) gives the pieces back, and
/// never runs off the end of the field elements.
pub proof fn lemma_decode_encoded_blobs(blobs: Seq<Vec<u8>>, items: Seq<Seq<u8>>, m: nat)
    requires
        decodable_pieces(items),
        blobs.len() > 0,
        blob_fes(blobs) == encode_stream(false, items) + zero_fes(m),
    ensures
        decode_blobs(true, blobs) == Some(items),
        !decoding_runs_out(true, blobs),
{
    let all = blob_fes(blobs);
    assert(all.len() >= 4096);
    if items.len() == 0 {
        assert(all =~= zero_fes(m));
        assert(all.skip(1) =~= zero_fes((m - 1) as nat));
        lemma_decode_zeros((m - 1) as nat);
        assert(items =~= Seq::<Seq<u8>>::empty());
        assert forall|g: int| 0 <= g < all.len() implies is_valid_fe(#[trigger] all[g]) by {
            assert(all[g] == zero_fe());
            assert(0u8 & 0xC0u8 == 0) by (bit_vector);
        }
    } else {
        lemma_encode_stream(items, false);
        let pieces = pieces_fes(items);
        assert(all =~= seq![header_fe()] + (pieces + zero_fes(m)));
        assert(all.skip(1) =~= pieces + zero_fes(m));
        lemma_decode_pieces(items, m);
        lemma_pieces_valid(items);
        lemma_fe_of_chunk_valid(header_bits(), 0);
        assert forall|g: int| 0 <= g < all.len() implies is_valid_fe(#[trigger] all[g]) by {
            if g == 0 {
            } else if g < 1 + pieces.len() {
                assert(all[g] == pieces[g - 1]);
            } else {
                assert(all[g] == zero_fe());
                assert(0u8 & 0xC0u8 == 0) by (bit_vector);
            }
        }
    }
}

/// The non-empty pieces of a sequence, in order.
pub open spec fn nonempty_pieces(items: Seq<Seq<u8>>) -> Seq<Seq<u8>>
    decreases items.len(),
{
    if items.len() == 0 {
        Seq::empty()
    } else {
        (if items[0].len() > 0 {
            seq![items[0]]
        } else {
            Seq::empty()
        }) + nonempty_pieces(items.skip(1))
    }
}

proof fn lemma_encode_stream_nonempty(items: Seq<Seq<u8>>)
    ensures
        encode_stream(true, items) == encode_stream(true, nonempty_pieces(items)),
        forall|i: int|
            0 <= i < nonempty_pieces(items).len() ==> #[trigger] nonempty_pieces(items)[i].len() > 0 && exists|
                j: int,
            | 0 <= j < items.len() && items[j] == nonempty_pieces(items)[i],
    decreases items.len(),
{
    if items.len() > 0 {
        let rest = items.skip(1);
        lemma_encode_stream_nonempty(rest);
        let np = nonempty_pieces(items);
        if items[0].len() > 0 {
            assert(np.skip(1) =~= nonempty_pieces(rest));
            assert(np[0] == items[0]);
        } else {
            assert(np =~= nonempty_pieces(rest));
            assert(encoded_fes(true, true, items[0]) =~= Seq::<Seq<u8>>::empty());
        }
        assert forall|i: int| 0 <= i < np.len() implies #[trigger] np[i].len() > 0 && exists|j: int|
            0 <= j < items.len() && items[j] == np[i] by {
            if items[0].len() > 0 && i == 0 {
                assert(items[0] == np[i]);
            } else {
                let i2 = if items[0].len() > 0 {
                    i - 1
                } else {
                    i
                };
                assert(np[i] == nonempty_pieces(rest)[i2]);
                let j = choose|j: int| 0 <= j < rest.len() && rest[j] == nonempty_pieces(rest)[i2];
                assert(items[j + 1] == rest[j]);
            }
        }
    }
}

proof fn lemma_encode_stream_header(items: Seq<Seq<u8>>)
    requires
        items.len() > 0,
    ensures
        encode_stream(false, items) == seq![header_fe()] + encode_stream(true, items),
{
    assert(encoded_fes(true, false, items[0]) =~= seq![header_fe()] + encoded_fes(true, true, items[0]));
}

/// Decoding the blobs a fresh length-prefixing coder filled with pieces of data
/// of at most `MAX_ALLOCATION_SIZE` bytes (the unused rest of the last blob left
/// zero) gives the non-empty pieces back, in order: empty pieces leave no trace.
pub proof fn lemma_decode_encoded_blobs_skips_empty(blobs: Seq<Vec<u8>>, items: Seq<Seq<u8>>, m: nat)
    requires
        forall|i: int| 0 <= i < items.len() ==> #[trigger] items[i].len() <= MAX_ALLOCATION_SIZE,
        blobs.len() > 0,
        blob_fes(blobs) == encode_stream(false, items) + zero_fes(m),
    ensures
        decode_blobs(true, blobs) == Some(nonempty_pieces(items)),
        !decoding_runs_out(true, blobs),
{
    let np = nonempty_pieces(items);
    lemma_encode_stream_nonempty(items);
    assert forall|i: int| 0 <= i < np.len() implies 0 < #[trigger] np[i].len() <= MAX_ALLOCATION_SIZE by {
        let j = choose|j: int| 0 <= j < items.len() && items[j] == np[i];
    }
    if items.len() == 0 {
        assert(np =~= Seq::<Seq<u8>>::empty());
        lemma_decode_encoded_blobs(blobs, np, m);
    } else if np.len() > 0 {
        lemma_encode_stream_header(items);
        lemma_encode_stream_header(np);
        lemma_decode_encoded_blobs(blobs, np, m);
    } else {
        lemma_encode_stream_header(items);
        assert(encode_stream(true, np) =~= Seq::<Seq<u8>>::empty());
        let all = blob_fes(blobs);
        assert(all.len() >= 4096);
        assert(all =~= seq![header_fe()] + zero_fes((all.len() - 1) as nat));
        assert(all.skip(1) =~= zero_fes((all.len() - 1) as nat));
        lemma_decode_zeros((all.len() - 1) as nat);
        lemma_fe_of_chunk_valid(header_bits(), 0);
        assert forall|g: int| 0 <= g < all.len() implies is_valid_fe(#[trigger] all[g]) by {
            if g > 0 {
                assert(all[g] == zero_fe());
                assert(0u8 & 0xC0u8 == 0) by (bit_vector);
            }
        }
    }
}

/// `code` never writes more field elements for a piece of data than
/// `required_fe` reserves for it, and exactly as many for non-empty data.
pub proof fn lemma_required_fe_matches_code(prepend_length: bool, header_prepended: bool, data: Seq<u8>)
    ensures
        encoded_fes(prepend_length, header_prepended, data).len() <= required_fes(
            prepend_length,
            header_prepended,
            data.len(),
        ),
        data.len() > 0 ==> encoded_fes(prepend_length, header_prepended, data).len() == required_fes(
            prepend_length,
            header_prepended,
            data.len(),
        ),
{
    let lp: nat = if prepend_length { 32 } else { 0 };
    assert(payload_bits(prepend_length, data).len() == lp + 8 * data.len()) by {
        if prepend_length {
            assert(bits_of_bytes(be_bytes(data.len() as u32)).len() == 32);
        }
    }
}

/// Number of bytes decoding without length prefixes reads from `c` field elements:
/// all their data bits, in whole bytes.
pub open spec fn unprefixed_bytes(c: nat) -> int {
    c * 32 - div_ceil((c * 2) as int, 8)
}

proof fn lemma_unprefixed_counts(c: nat)
    requires
        c >= 1,
    ensures
        8 * unprefixed_bytes(c) <= 254 * c,
        254 * c < 8 * unprefixed_bytes(c) + 8,
        claimed_fes(false, Seq::new(c, |i: int| Seq::<u8>::empty())) == c,
{
    let fes = Seq::new(c, |i: int| Seq::<u8>::empty());
    assert(claimed_bytes(false, fes) == unprefixed_bytes(c));
}

/// An all-zero field element holds only zero bits.
proof fn lemma_zero_fe_bits(r: int)
    requires
        0 <= r < 254,
    ensures
        !fe_data_bit(zero_fe(), r),
{
    lemma_zero_byte_bits((7 - (r + 2) % 8) as u8);
}

/// Bytes packed from the bits of `data` followed by zero bits are `data`
/// followed by zero bytes.
proof fn lemma_bytes_of_padded_bits(data: Seq<u8>, bits: Seq<bool>, t: nat)
    requires
        bits.len() == 8 * (data.len() + t),
        forall|i: int| 0 <= i < bits.len() ==> #[trigger] bits[i] == (i < 8 * data.len() && bits_of_bytes(data)[i]),
    ensures
        bytes_of_bits(bits) == data + Seq::new(t, |k: int| 0u8),
{
    let expected = data + Seq::new(t, |k: int| 0u8);
    assert forall|k: int| 0 <= k < data.len() + t implies byte_of_bits(bits, k) == expected[k] by {
        if k < data.len() {
            assert forall|q: int| 0 <= q < 8 implies 0 <= #[trigger] (8 * k + q) < bits.len() by {}
            assert forall|q: int| 0 <= q < 8 implies bits[8 * k + q] == bit_of(data[k], q) by {
                assert((8 * k + q) / 8 == k);
                assert((8 * k + q) % 8 == q);
            }
            crate::submission::bits::lemma_byte_of_bits_of_byte(bits, k, data[k]);
        } else {
            reveal_with_fuel(crate::submission::bits::digits, 9);
            assert(bit_value(bits, 8 * k) == 0);
            assert(bit_value(bits, 8 * k + 1) == 0);
            assert(bit_value(bits, 8 * k + 2) == 0);
            assert(bit_value(bits, 8 * k + 3) == 0);
            assert(bit_value(bits, 8 * k + 4) == 0);
            assert(bit_value(bits, 8 * k + 5) == 0);
            assert(bit_value(bits, 8 * k + 6) == 0);
            assert(bit_value(bits, 8 * k + 7) == 0);
        }
    }
    assert(bytes_of_bits(bits) =~= expected);
}

/// Without length prefixes, decoding the field elements of one piece of data
/// followed by zero field elements reads everything as one piece: the data,
/// then zero bytes up to all the data bits of the field elements.
pub proof fn lemma_decode_unprefixed(data: Seq<u8>, m: nat)
    requires
        data.len() > 0,
        unprefixed_bytes(fes_of_bits(bits_of_bytes(data)).len() + m) <= MAX_ALLOCATION_SIZE,
    ensures
        ({
            let c = fes_of_bits(bits_of_bytes(data)).len() + m;
            decode_fes(false, fes_of_bits(bits_of_bytes(data)) + zero_fes(m)) == Ok::<Seq<Seq<u8>>, DecodeError>(
                seq![data + Seq::new((unprefixed_bytes(c) - data.len()) as nat, |k: int| 0u8)],
            )
        }),
{
    let bits = bits_of_bytes(data);
    let e = fes_of_bits(bits);
    let fes = e + zero_fes(m);
    let c = fes.len();
    let n = unprefixed_bytes(c);
    assert(e.len() >= 1);
    lemma_unprefixed_counts(c);
    assert(claimed_bytes(false, fes) == n);
    assert(claimed_fes(false, fes) == claimed_fes(false, Seq::new(c, |i: int| Seq::<u8>::empty())));
    assert(claimed_fes(false, fes) == c);
    assert(fes.take(c as int) =~= fes);
    assert(8 * data.len() <= 254 * e.len());
    assert(data.len() <= n);
    lemma_fes_bits_roundtrip(bits);
    let all = bits_of_fes(fes);
    assert forall|i: int| 0 <= i < all.len() implies #[trigger] all[i] == (i < 8 * data.len() && bits[i]) by {
        let g = i / 254;
        if g < e.len() {
            assert(fes[g] == e[g]);
            assert(all[i] == bits_of_fes(e)[i]);
        } else {
            assert(fes[g] == zero_fe());
            lemma_zero_fe_bits(i % 254);
        }
    }
    let data_bits = all.subrange(0, 8 * n);
    lemma_bytes_of_padded_bits(data, data_bits, (n - data.len()) as nat);
    assert(claimed_data(false, fes) == data + Seq::new((n - data.len()) as nat, |k: int| 0u8));
    assert(fes.skip(c as int) =~= Seq::<Seq<u8>>::empty());
    assert(decode_fes(false, fes.skip(c as int)) == Ok::<Seq<Seq<u8>>, DecodeError>(Seq::empty()));
    let piece = data + Seq::new((n - data.len()) as nat, |k: int| 0u8);
    assert(seq![piece] + Seq::<Seq<u8>>::empty() =~= seq![piece]);
    assert(decode_fes(false, fes) == prepend_items(seq![piece], decode_fes(false, fes.skip(c as int))));
}

/// Decoding the blobs a fresh coder without length prefixes filled with one
/// piece of data (the unused rest of the last blob left zero) gives one piece:
/// the data, then zero bytes up to all the data bits of the blobs.
pub proof fn lemma_decode_unprefixed_blobs(blobs: Seq<Vec<u8>>, data: Seq<u8>, m: nat)
    requires
        data.len() > 0,
        blobs.len() > 0,
        blob_fes(blobs) == encoded_fes(false, false, data) + zero_fes(m),
        unprefixed_bytes((blob_fes(blobs).len() - 1) as nat) <= MAX_ALLOCATION_SIZE,
    ensures
        decode_blobs(false, blobs) == Some(
            seq![data + Seq::new((unprefixed_bytes((blob_fes(blobs).len() - 1) as nat) - data.len()) as nat, |k: int| 0u8)],
        ),
{
    let all = blob_fes(blobs);
    let e = fes_of_bits(bits_of_bytes(data));
    assert(payload_bits(false, data) =~= bits_of_bytes(data));
    assert(all =~= seq![header_fe()] + (e + zero_fes(m)));
    assert(all.skip(1) =~= e + zero_fes(m));
    lemma_decode_unprefixed(data, m);
    lemma_fe_of_chunk_valid(header_bits(), 0);
    assert forall|g: int| 0 <= g < all.len() implies is_valid_fe(#[trigger] all[g]) by {
        if g == 0 {
        } else if g < 1 + e.len() {
            assert(all[g] == e[g - 1]);
            lemma_fe_of_chunk_valid(bits_of_bytes(data), g - 1);
        } else {
            assert(all[g] == zero_fe());
            assert(0u8 & 0xC0u8 == 0) by (bit_vector);
        }
    }
}

} // verus!
