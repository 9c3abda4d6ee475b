//! The optimized blob coder: packs data into the low 254 bits of each
//! 32-byte field element of a blob.
use vstd::prelude::*;
use vstd::string::StringSliceAdditionalSpecFns;
use alloy_eips::eip4844::builder::PartialSidecar;
use alloy_eips::eip4844::utils::WholeFe;
use crate::submission::bits::{bit_of, bit_value, bits_of_bytes, byte_of_bits, bytes_for_bits, bytes_of_bits, digits, lemma_digits_bound, two_pow};

verus! {

/// Number of bits of a field element that may carry data (the top two must stay zero).
pub const USABLE_BITS_PER_FIELD_ELEMENT: usize = 254;

/// Number of bytes of a field element.
pub const FIELD_ELEMENT_BYTES: usize = 32;

/// Number of field elements in a blob.
pub const FIELD_ELEMENTS_PER_BLOB: usize = 4096;

/// Number of bytes in a blob.
pub const BYTES_PER_BLOB: usize = 131072;

/// Number of bytes a blob can carry when every field element holds 254 bits.
pub const USABLE_BYTES_PER_BLOB: usize = 130048;

/// Top bits of a field element that carry no data.
pub const UNALLOCATED_BITS_PER_FE: usize = 2;

/// Bits of the big-endian length prefix written before each piece of data.
pub const LENGTH_PREFIX_BITS: usize = 32;

/// Bytes of the length prefix.
pub const LENGTH_PREFIX_SIZE_BYTES: usize = 4;

/// Bytes the header (the coder's name) takes: one whole field element.
pub const HEADER_SIZE_BYTES: usize = 32;

/// Largest piece of data that decoding accepts (2 MiB).
pub const MAX_ALLOCATION_SIZE: usize = 2097152;

/// Number of field elements needed to hold `n` bits.
pub open spec fn fes_for_bits(n: nat) -> nat {
    (n + 253) / 254
}

/// The bits that field element `c` of a packed stream holds: two zero bits,
/// then the (up to) 254 stream bits of chunk `c`.
pub open spec fn fe_window(bits: Seq<bool>, c: int) -> Seq<bool> {
    let end = if bits.len() < 254 * c + 254 {
        bits.len() as int
    } else {
        254 * c + 254
    };
    seq![false, false] + bits.subrange(254 * c, end)
}

/// Field element `c` of a packed stream: its window of bits, zero padded to 256 bits.
pub open spec fn fe_of_chunk(bits: Seq<bool>, c: int) -> Seq<u8> {
    Seq::new(32, |k: int| byte_of_bits(fe_window(bits, c), k))
}

/// A bit stream packed 254 bits per field element, the last one zero padded.
pub open spec fn fes_of_bits(bits: Seq<bool>) -> Seq<Seq<u8>> {
    Seq::new(fes_for_bits(bits.len()), |c: int| fe_of_chunk(bits, c))
}

/// The 254 data bits of a field element (bits 2..256, most significant first).
pub open spec fn fe_data_bit(fe: Seq<u8>, r: int) -> bool {
    bit_of(fe[(r + 2) / 8], (r + 2) % 8)
}

/// The bit stream held by a sequence of field elements, 254 bits each.
pub open spec fn bits_of_fes(fes: Seq<Seq<u8>>) -> Seq<bool> {
    Seq::new(fes.len() * 254, |i: int| fe_data_bit(fes[i / 254], i % 254))
}

/// The byte views of a sequence of field elements.
pub open spec fn fe_views(fes: Seq<[u8; 32]>) -> Seq<Seq<u8>> {
    Seq::new(fes.len(), |i: int| fes[i]@)
}

/// The value of four bytes read as a big-endian number.
pub open spec fn be_value(b: Seq<u8>) -> int {
    b[0] * 16777216 + b[1] * 65536 + b[2] * 256 + b[3]
}

/// The four big-endian bytes of a 32-bit number.
pub open spec fn be_bytes(n: u32) -> Seq<u8> {
    seq![(n / 16777216) as u8, ((n / 65536) % 256) as u8, ((n / 256) % 256) as u8, (n % 256) as u8]
}

/// The length prefix a field element starts with: its first 32 data bits, big-endian.
pub open spec fn length_prefix(fe: Seq<u8>) -> int {
    be_value(bytes_of_bits(bits_of_fes(seq![fe]).take(32)))
}

/// `a` divided by `b`, rounded up.
pub open spec fn div_ceil(a: int, b: int) -> int {
    (a + b - 1) / b
}

/// Why decoding gives up.
#[derive(Clone, Copy, Debug, PartialEq, Eq)]
pub enum DecodeError {
    /// There are no blobs.
    NoBlobs,
    /// A field element has one of its top two bits set.
    InvalidFieldElement,
    /// A piece of data claims more than `MAX_ALLOCATION_SIZE` bytes.
    TooLarge,
    /// A piece of data claims more field elements than there are left.
    OutOfFieldElements,
}

/// Number of data bytes the next piece of data claims, for a stream of
/// field elements starting with the piece's first field element.
pub open spec fn claimed_bytes(prepend_length: bool, fes: Seq<Seq<u8>>) -> int {
    if prepend_length {
        length_prefix(fes[0])
    } else {
        fes.len() * 32 - div_ceil((fes.len() * 2) as int, 8)
    }
}

/// First data bit of the next piece of data (after the length prefix, if any).
pub open spec fn data_start(prepend_length: bool) -> int {
    if prepend_length {
        32
    } else {
        0
    }
}

/// Number of field elements the next piece of data spans.
pub open spec fn claimed_fes(prepend_length: bool, fes: Seq<Seq<u8>>) -> int {
    let have = 254 - data_start(prepend_length);
    let need = 8 * claimed_bytes(prepend_length, fes);
    1 + if need > have {
        div_ceil(need - have, 254)
    } else {
        0
    }
}

/// The bytes of the next piece of data.
pub open spec fn claimed_data(prepend_length: bool, fes: Seq<Seq<u8>>) -> Seq<u8> {
    let start = data_start(prepend_length);
    bytes_of_bits(
        bits_of_fes(fes.take(claimed_fes(prepend_length, fes))).subrange(
            start,
            start + 8 * claimed_bytes(prepend_length, fes),
        ),
    )
}

/// Puts decoded pieces in front of the outcome of decoding the rest.
pub open spec fn prepend_items(items: Seq<Seq<u8>>, rest: Result<Seq<Seq<u8>>, DecodeError>) -> Result<Seq<Seq<u8>>, DecodeError> {
    match rest {
        Ok(more) => Ok(items + more),
        Err(e) => Err(e),
    }
}

/// Decoding of a stream of field elements (after the header) into pieces of data:
/// pieces are read one after the other until the stream ends or a piece claims
/// zero bytes.
pub open spec fn decode_fes(prepend_length: bool, fes: Seq<Seq<u8>>) -> Result<Seq<Seq<u8>>, DecodeError>
    decreases fes.len(),
{
    if fes.len() == 0 {
        Ok(seq![])
    } else {
        let n = claimed_bytes(prepend_length, fes);
        let k = claimed_fes(prepend_length, fes);
        if n == 0 {
            Ok(seq![])
        } else if n > MAX_ALLOCATION_SIZE {
            Err(DecodeError::TooLarge)
        } else if k > fes.len() {
            Err(DecodeError::OutOfFieldElements)
        } else {
            prepend_items(seq![claimed_data(prepend_length, fes)], decode_fes(prepend_length, fes.skip(k)))
        }
    }
}

/// The field elements of a sequence of blobs, 32 bytes each, in order.
pub open spec fn blob_fes(blobs: Seq<Vec<u8>>) -> Seq<Seq<u8>> {
    Seq::new(
        blobs.len() * 4096,
        |g: int| blobs[g / 4096]@.subrange(32 * (g % 4096), 32 * (g % 4096) + 32),
    )
}

/// Whether a 32-byte field element has its top two bits clear.
pub open spec fn is_valid_fe(fe: Seq<u8>) -> bool {
    fe[0] & 0xC0u8 == 0
}

/// The byte views of a sequence of vectors.
pub open spec fn vec_views(v: Seq<Vec<u8>>) -> Seq<Seq<u8>> {
    Seq::new(v.len(), |i: int| v[i]@)
}

/// Outcome of decoding blobs: `None` for no blobs, an invalid field element or
/// too large a piece of data; otherwise the pieces of data after the header.
pub open spec fn decode_blobs(prepend_length: bool, blobs: Seq<Vec<u8>>) -> Option<Seq<Seq<u8>>> {
    if blobs.len() == 0 {
        None
    } else if exists|g: int| 0 <= g < blob_fes(blobs).len() && !is_valid_fe(#[trigger] blob_fes(blobs)[g]) {
        None
    } else {
        match decode_fes(prepend_length, blob_fes(blobs).skip(1)) {
            Ok(items) => Some(items),
            Err(_) => None,
        }
    }
}

/// Whether decoding the blobs runs off the end of the field elements.
pub open spec fn decoding_runs_out(prepend_length: bool, blobs: Seq<Vec<u8>>) -> bool {
    &&& blobs.len() > 0
    &&& forall|g: int| 0 <= g < blob_fes(blobs).len() ==> is_valid_fe(#[trigger] blob_fes(blobs)[g])
    &&& decode_fes(prepend_length, blob_fes(blobs).skip(1)) == Err::<Seq<Seq<u8>>, DecodeError>(
        DecodeError::OutOfFieldElements,
    )
}

/// `PartialSidecar` of alloy-eips, the blobs a sidecar builder fills, field
/// element after field element.
#[verifier::external_type_specification]
#[verifier::external_body]
pub struct ExPartialSidecar(PartialSidecar);

/// The field elements ingested into a `PartialSidecar` so far, in order.
pub uninterp spec fn sidecar_fes(sidecar: PartialSidecar) -> Seq<Seq<u8>>;

/// `WholeFe::new` of alloy-eips: a 32-byte slice is a whole field element
/// exactly when its top two bits are clear.
#[verifier::external_body]
fn is_whole_fe(fe: &[u8; 32]) -> (r: bool)
    ensures
        r == is_valid_fe(fe@),
{
    WholeFe::new(fe).is_some()
}

/// `PartialSidecar::ingest_valid_fe` of alloy-eips, given the field element
/// `WholeFe::new` makes of `fe` (which succeeds, its top two bits being clear):
/// the field element is written into the next unused slot, after all field
/// elements ingested before.
#[verifier::external_body]
fn ingest_fe(builder: &mut PartialSidecar, fe: &[u8; 32])
    requires
        is_valid_fe(fe@),
    ensures
        sidecar_fes(*final(builder)) == sidecar_fes(*old(builder)).push(fe@),
{
    builder.ingest_valid_fe(WholeFe::new(fe).unwrap());
}

/// The name the coder writes into the header.
pub open spec fn coder_name() -> Seq<u8> {
    "OptimizedCoder(pl=true)".spec_bytes()
}

/// The coder's name is 23 bytes long, so it fits into one field element.
proof fn lemma_coder_name_len()
    ensures
        coder_name().len() == 23,
{
    broadcast use vstd::string::is_ascii_spec_bytes;

    reveal_strlit("OptimizedCoder(pl=true)");
    assert(vstd::string::is_ascii("OptimizedCoder(pl=true)"));
}

/// The header bits: the bits of the coder's name, zero padded to 254 bits.
pub open spec fn header_bits() -> Seq<bool> {
    bits_of_bytes(coder_name()) + Seq::new((254 - coder_name().len() * 8) as nat, |i: int| false)
}

/// The header field element.
pub open spec fn header_fe() -> Seq<u8> {
    fe_of_chunk(header_bits(), 0)
}

/// The bit stream written for one piece of data: the length prefix (if any), then the data.
pub open spec fn payload_bits(prepend_length: bool, data: Seq<u8>) -> Seq<bool> {
    (if prepend_length {
        bits_of_bytes(be_bytes(data.len() as u32))
    } else {
        Seq::empty()
    }) + bits_of_bytes(data)
}

/// The field elements written for one piece of data: the header (if not yet
/// written), then the packed payload (nothing for empty data).
pub open spec fn encoded_fes(prepend_length: bool, header_prepended: bool, data: Seq<u8>) -> Seq<Seq<u8>> {
    (if header_prepended {
        Seq::empty()
    } else {
        seq![header_fe()]
    }) + (if data.len() == 0 {
        Seq::empty()
    } else {
        fes_of_bits(payload_bits(prepend_length, data))
    })
}

/// Number of field elements reserved for one piece of data: the header (if not
/// yet written), the length prefix (if any) and the data, at 254 bits each.
pub open spec fn required_fes(prepend_length: bool, header_prepended: bool, len: nat) -> nat {
    fes_for_bits(
        ((if header_prepended {
            0nat
        } else {
            254nat
        }) + (if prepend_length {
            32nat
        } else {
            0nat
        }) + 8 * len) as nat,
    )
}

proof fn lemma_small_byte_valid(x: u8)
    by (bit_vector)
    requires
        x < 64,
    ensures
        x & 0xC0u8 == 0,
{
}

/// Every field element of a packed stream has its top two bits clear.
pub proof fn lemma_fe_of_chunk_valid(bits: Seq<bool>, c: int)
    ensures
        is_valid_fe(fe_of_chunk(bits, c)),
        fe_of_chunk(bits, c).len() == 32,
{
    let w = fe_window(bits, c);
    reveal_with_fuel(digits, 9);
    assert(bit_value(w, 0) == 0);
    assert(bit_value(w, 1) == 0);
    crate::submission::bits::lemma_digits_bound(w, 2, 6);
    reveal_with_fuel(two_pow, 7);
    assert(digits(w, 0, 8) < 64) by {
        crate::submission::bits::lemma_digits_bound(w, 0, 6);
        reveal_with_fuel(two_pow, 7);
    }
    lemma_small_byte_valid(byte_of_bits(w, 0));
}

/// Optimized BLOB coder that uses up to 254 bits (31.75 bytes) of each field element.
///
/// The top 2 bits of each field element stay 0, so that every field element is
/// below the BLS12-381 scalar field modulus used by the KZG commitments.
///
/// Encoding:
/// - the header (the coder's name) is written once, into the first field element;
/// - data is optionally prefixed with its length as a 32-bit big-endian number;
/// - the bits of the (prefixed) data are packed into consecutive field elements,
///   254 bits each, the last one padded with zeros.
#[derive(Clone, Copy, Debug, Default)]
pub struct OptimizedBlobCoder {
    prepend_length: bool,
    header_prepended: bool,
}

impl OptimizedBlobCoder {
    /// Whether each piece of data is prefixed with its length.
    pub closed spec fn spec_prepend_length(self) -> bool {
        self.prepend_length
    }

    /// Whether the header has already been written.
    pub closed spec fn spec_header_prepended(self) -> bool {
        self.header_prepended
    }

    /// Create a new coder; the header has not been written yet.
    pub fn new(prepend_length: bool) -> (coder: Self)
        ensures
            coder.spec_prepend_length() == prepend_length,
            !coder.spec_header_prepended(),
    {
        Self { prepend_length, header_prepended: false }
    }

    /// Whether each piece of data is prefixed with its length.
    pub fn should_prepend_length(&self) -> (r: bool)
        ensures
            r == self.spec_prepend_length(),
    {
        self.prepend_length
    }

    /// The coder's name, which the header field element carries.
    pub fn get_name(&self) -> (name: &'static str)
        ensures
            name.spec_bytes() == coder_name(),
            name.spec_bytes().len() == 23,
    {
        let name = "OptimizedCoder(pl=true)";
        proof {
            lemma_coder_name_len();
        }
        name
    }

    /// Convert bytes to bits, most significant bit of each byte first.
    pub fn bytes_to_bits(bytes: &[u8]) -> (bits: Vec<bool>)
        ensures
            bits@ == bits_of_bytes(bytes@),
    {
        let mut bits: Vec<bool> = Vec::new();
        let mut idx: usize = 0;
        while idx < bytes.len()
            invariant
                idx <= bytes.len(),
                bits.len() == 8 * idx,
                forall|q: int| 0 <= q < bits.len() ==> #[trigger] bits@[q] == bit_of(bytes@[q / 8], q % 8),
            decreases bytes.len() - idx,
        {
            let byte = bytes[idx];
            let mut j: u8 = 0;
            while j < 8
                invariant
                    idx < bytes.len(),
                    byte == bytes@[idx as int],
                    j <= 8,
                    bits.len() == 8 * idx + j,
                    forall|q: int| 0 <= q < bits.len() ==> #[trigger] bits@[q] == bit_of(bytes@[q / 8], q % 8),
                decreases 8 - j,
            {
                bits.push((byte >> (7 - j)) & 1 == 1);
                j = j + 1;
            }
            idx = idx + 1;
        }
        assert(bits@ =~= bits_of_bytes(bytes@));
        bits
    }

    /// Convert bits to bytes, eight bits per byte, the last byte padded with zero bits.
    pub fn bits_to_bytes(bits: &[bool]) -> (bytes: Vec<u8>)
        requires
            bits.len() <= usize::MAX - 8,
        ensures
            bytes@ == bytes_of_bits(bits@),
    {
        let n = bits.len();
        let byte_count = n / 8 + if n % 8 == 0 { 0 } else { 1 };
        let mut bytes: Vec<u8> = Vec::new();
        let mut k: usize = 0;
        while k < byte_count
            invariant
                n == bits.len(),
                n <= usize::MAX - 8,
                byte_count == bytes_for_bits(n as nat),
                k <= byte_count,
                bytes.len() == k,
                forall|q: int| 0 <= q < k ==> #[trigger] bytes@[q] == byte_of_bits(bits@, q),
            decreases byte_count - k,
        {
            let mut b: u8 = 0;
            let mut t: usize = 0;
            while t < 8
                invariant
                    n == bits.len(),
                    n <= usize::MAX - 8,
                    k < byte_count,
                    byte_count == bytes_for_bits(n as nat),
                    t <= 8,
                    b as int == digits(bits@, 8 * k, t as nat),
                decreases 8 - t,
            {
                let p = 8 * k + t;
                let bit: u8 = if p < n && bits[p] { 1 } else { 0 };
                proof {
                    lemma_digits_bound(bits@, 8 * k, t as nat);
                    reveal_with_fuel(two_pow, 8);
                    assert(two_pow(t as nat) <= 128) by {
                        reveal_with_fuel(two_pow, 9);
                    }
                }
                b = b * 2 + bit;
                t = t + 1;
            }
            bytes.push(b);
            k = k + 1;
        }
        assert(bytes@ =~= bytes_of_bits(bits@));
        bytes
    }

    /// Pack a bit stream into field elements, 254 bits each after two zero bits,
    /// the last field element padded with zeros.
    pub fn bits_to_field_elements(bits: &[bool]) -> (fes: Vec<[u8; 32]>)
        requires
            bits.len() <= usize::MAX - 512,
        ensures
            fe_views(fes@) == fes_of_bits(bits@),
    {
        let n = bits.len();
        let chunk_count = n / 254 + if n % 254 == 0 { 0 } else { 1 };
        let mut result: Vec<[u8; 32]> = Vec::new();
        let mut c: usize = 0;
        while c < chunk_count
            invariant
                n == bits.len(),
                n <= usize::MAX - 512,
                chunk_count == fes_for_bits(n as nat),
                c <= chunk_count,
                result.len() == c,
                forall|q: int| 0 <= q < c ==> #[trigger] result@[q]@ == fe_of_chunk(bits@, q),
            decreases chunk_count - c,
        {
            let ghost window = fe_window(bits@, c as int);
            let mut fe: [u8; 32] = [0u8; 32];
            let mut k: usize = 0;
            while k < 32
                invariant
                    n == bits.len(),
                    n <= usize::MAX - 512,
                    chunk_count == fes_for_bits(n as nat),
                    c < chunk_count,
                    window == fe_window(bits@, c as int),
                    k <= 32,
                    forall|q: int| 0 <= q < k ==> #[trigger] fe@[q] == byte_of_bits(window, q),
                decreases 32 - k,
            {
                let mut b: u8 = 0;
                let mut t: usize = 0;
                while t < 8
                    invariant
                        n == bits.len(),
                        n <= usize::MAX - 512,
                        chunk_count == fes_for_bits(n as nat),
                        c < chunk_count,
                        window == fe_window(bits@, c as int),
                        k < 32,
                        t <= 8,
                        b as int == digits(window, 8 * k, t as nat),
                    decreases 8 - t,
                {
                    let p = 8 * k + t;
                    let bit: u8 = if p >= 2 && p - 2 < 254 && c * 254 + (p - 2) < n && bits[c * 254 + (p - 2)] {
                        1
                    } else {
                        0
                    };
                    proof {
                        assert(bit as int == bit_value(window, p as int));
                        lemma_digits_bound(window, 8 * k, t as nat);
                        assert(two_pow(t as nat) <= 128) by {
                            reveal_with_fuel(two_pow, 9);
                        }
                    }
                    b = b * 2 + bit;
                    t = t + 1;
                }
                fe[k] = b;
                k = k + 1;
            }
            assert(fe@ =~= fe_of_chunk(bits@, c as int));
            result.push(fe);
            c = c + 1;
        }
        assert(fe_views(result@) =~= fes_of_bits(bits@));
        result
    }

    /// The bit stream held by field elements: bits 2..256 of each, most significant first.
    pub fn field_elements_to_bits(fes: &[[u8; 32]]) -> (bits: Vec<bool>)
        ensures
            bits@ == bits_of_fes(fe_views(fes@)),
    {
        let mut bits: Vec<bool> = Vec::new();
        let mut c: usize = 0;
        while c < fes.len()
            invariant
                c <= fes.len(),
                bits.len() == 254 * c,
                forall|q: int| 0 <= q < bits.len() ==> #[trigger] bits@[q] == fe_data_bit(fes@[q / 254]@, q % 254),
            decreases fes.len() - c,
        {
            let fe = fes[c];
            let mut k: usize = 0;
            while k < 32
                invariant
                    c < fes.len(),
                    fe == fes@[c as int],
                    k <= 32,
                    bits.len() == 254 * c + if k == 0 { 0 } else { 8 * k - 2 },
                    forall|q: int| 0 <= q < bits.len() ==> #[trigger] bits@[q] == fe_data_bit(fes@[q / 254]@, q % 254),
                decreases 32 - k,
            {
                let byte = fe[k];
                let start: u8 = if k == 0 { 2 } else { 0 };
                let mut bit_pos: u8 = start;
                while bit_pos < 8
                    invariant
                        c < fes.len(),
                        fe == fes@[c as int],
                        k < 32,
                        byte == fe@[k as int],
                        start <= bit_pos <= 8,
                        start == if k == 0 { 2u8 } else { 0u8 },
                        bits.len() == 254 * c + 8 * k + bit_pos - 2,
                        forall|q: int| 0 <= q < bits.len() ==> #[trigger] bits@[q] == fe_data_bit(fes@[q / 254]@, q % 254),
                    decreases 8 - bit_pos,
                {
                    proof {
                        let q = 254 * c + 8 * k + bit_pos - 2;
                        assert(q / 254 == c as int);
                        assert(q % 254 == 8 * k + bit_pos - 2);
                        assert((8 * k + bit_pos) / 8 == k as int);
                        assert((8 * k + bit_pos) % 8 == bit_pos as int);
                    }
                    bits.push((byte >> (7 - bit_pos)) & 1 == 1);
                    bit_pos = bit_pos + 1;
                }
                k = k + 1;
            }
            c = c + 1;
        }
        assert(bits@ =~= bits_of_fes(fe_views(fes@)));
        bits
    }
    /// Copy the bits `start..end` of a stream.
    fn copy_bits(bits: &Vec<bool>, start: usize, end: usize) -> (out: Vec<bool>)
        requires
            start <= end <= bits.len(),
        ensures
            out@ == bits@.subrange(start as int, end as int),
    {
        let mut out: Vec<bool> = Vec::new();
        let mut i = start;
        while i < end
            invariant
                start <= i <= end <= bits.len(),
                out@ == bits@.subrange(start as int, i as int),
            decreases end - i,
        {
            out.push(bits[i]);
            i = i + 1;
            assert(out@ =~= bits@.subrange(start as int, i as int));
        }
        out
    }

    /// Decode a single piece of data from the field elements starting at `*pos`,
    /// and move `*pos` past the field elements read.
    ///
    /// Returns `Ok(Some(data))` if there is data,
    /// `Ok(None)` if there is none (no field elements left, or a claimed length of 0),
    /// `Err(DecodeError::TooLarge)` if the data claims more than
    /// `MAX_ALLOCATION_SIZE` bytes, and `Err(DecodeError::OutOfFieldElements)` if
    /// it claims more field elements than there are left.
    fn decode_one(&self, fes: &Vec<[u8; 32]>, pos: &mut usize) -> (res: Result<Option<Vec<u8>>, DecodeError>)
        requires
            *old(pos) <= fes.len(),
            fes.len() <= usize::MAX / 32,
        ensures
            *old(pos) <= *final(pos) <= fes.len(),
            ({
                let rest = fe_views(fes@).skip(*old(pos) as int);
                let n = claimed_bytes(self.prepend_length, rest);
                let k = claimed_fes(self.prepend_length, rest);
                &&& rest.len() == 0 ==> res == Ok::<Option<Vec<u8>>, DecodeError>(None) && *final(pos)
                    == *old(pos)
                &&& rest.len() > 0 && n == 0 ==> res == Ok::<Option<Vec<u8>>, DecodeError>(None) && *final(pos)
                    == *old(pos) + 1
                &&& rest.len() > 0 && n > MAX_ALLOCATION_SIZE ==> res == Err::<Option<Vec<u8>>, DecodeError>(
                    DecodeError::TooLarge,
                ) && *final(pos) == *old(pos) + 1
                &&& rest.len() > 0 && 0 < n <= MAX_ALLOCATION_SIZE && k > rest.len() ==> res == Err::<
                    Option<Vec<u8>>,
                    DecodeError,
                >(DecodeError::OutOfFieldElements) && *final(pos) == *old(pos) + 1
                &&& rest.len() > 0 && 0 < n <= MAX_ALLOCATION_SIZE && k <= rest.len() ==> {
                    &&& res matches Ok(Some(data))
                    &&& data@ == claimed_data(self.prepend_length, rest)
                    &&& *final(pos) == *old(pos) + k
                }
            }),
    {
        let ghost rest = fe_views(fes@).skip(*pos as int);
        if *pos >= fes.len() {
            return Ok(None);
        }
        let first = fes[*pos];
        let first_pos = *pos;
        *pos = *pos + 1;
        let mut taken: Vec<[u8; 32]> = Vec::new();
        taken.push(first);
        assert(fe_views(taken@) =~= rest.take(1));
        let bits = Self::field_elements_to_bits(taken.as_slice());

        // Read the data length
        let mut num_bytes: usize;
        let start_bit: usize;
        if self.prepend_length {
            let length_bits = Self::copy_bits(&bits, 0, LENGTH_PREFIX_BITS);
            let length_bytes = Self::bits_to_bytes(length_bits.as_slice());
            assert(rest.take(1) =~= seq![rest[0]]);
            assert(length_bits@ =~= bits@.take(32));
            num_bytes = (length_bytes[0] as usize) * 16777216 + (length_bytes[1] as usize) * 65536
                + (length_bytes[2] as usize) * 256 + (length_bytes[3] as usize);
            start_bit = LENGTH_PREFIX_BITS;
        } else {
            // Without a length prefix the data is the whole rest of the stream
            let fe_count = fes.len() - first_pos;
            num_bytes = fe_count * FIELD_ELEMENT_BYTES;
            let unallocated_bits_count = fe_count * UNALLOCATED_BITS_PER_FE;
            num_bytes = num_bytes - (unallocated_bits_count / 8 + if unallocated_bits_count % 8 == 0 {
                0
            } else {
                1
            });
            start_bit = 0;
        }
        assert(num_bytes == claimed_bytes(self.prepend_length, rest));

        if num_bytes == 0 {
            return Ok(None);
        }
        if num_bytes > MAX_ALLOCATION_SIZE {
            return Err(DecodeError::TooLarge);
        }

        let bits_needed = num_bytes * 8;
        let mut bits_already_have = bits.len();
        if self.prepend_length {
            bits_already_have = bits_already_have - LENGTH_PREFIX_BITS;
        }
        let additional_bits_needed = bits_needed.saturating_sub(bits_already_have);
        let additional_fes_needed = additional_bits_needed / USABLE_BITS_PER_FIELD_ELEMENT
            + if additional_bits_needed % USABLE_BITS_PER_FIELD_ELEMENT == 0 {
            0
        } else {
            1
        };
        assert(1 + additional_fes_needed == claimed_fes(self.prepend_length, rest));
        if additional_fes_needed > fes.len() - *pos {
            // The piece claims more field elements than there are left
            return Err(DecodeError::OutOfFieldElements);
        }

        // Collect the remaining field elements of this piece of data
        let mut i: usize = 0;
        while i < additional_fes_needed
            invariant
                fes.len() <= usize::MAX / 32,
                rest == fe_views(fes@).skip(first_pos as int),
                first_pos < fes.len(),
                1 + additional_fes_needed <= rest.len(),
                i <= additional_fes_needed,
                *pos == first_pos + 1 + i,
                fe_views(taken@) == rest.take(1 + i),
            decreases additional_fes_needed - i,
        {
            let ghost old_taken = fe_views(taken@);
            let fe = fes[*pos];
            assert(rest[1 + i as int] == fe@);
            taken.push(fe);
            *pos = *pos + 1;
            i = i + 1;
            assert(fe_views(taken@) =~= old_taken.push(fe@));
            assert(fe_views(taken@) =~= rest.take(1 + i));
        }

        let all_bits = Self::field_elements_to_bits(taken.as_slice());
        let data_bits = Self::copy_bits(&all_bits, start_bit, start_bit + bits_needed);
        let data = Self::bits_to_bytes(data_bits.as_slice());
        Ok(Some(data))
    }
    /// Decode all pieces of data from the blobs: the first field element (the
    /// header) is skipped, then pieces are decoded one after the other until
    /// the field elements end or a piece claims zero bytes.
    ///
    /// Fails if there are no blobs, if any field element has one of its top two
    /// bits set, if a piece claims more than `MAX_ALLOCATION_SIZE` bytes, or if a
    /// piece claims more field elements than there are left.
    pub fn try_decode_all(&self, blobs: &[Vec<u8>]) -> (res: Result<Vec<Vec<u8>>, DecodeError>)
        requires
            forall|b: int| 0 <= b < blobs.len() ==> #[trigger] blobs@[b].len() == BYTES_PER_BLOB,
            blobs.len() <= usize::MAX / 131072,
        ensures
            blobs.len() == 0 ==> res == Err::<Vec<Vec<u8>>, DecodeError>(DecodeError::NoBlobs),
            blobs.len() > 0 && (exists|g: int|
                0 <= g < blob_fes(blobs@).len() && !is_valid_fe(#[trigger] blob_fes(blobs@)[g]))
                ==> res == Err::<Vec<Vec<u8>>, DecodeError>(DecodeError::InvalidFieldElement),
            blobs.len() > 0 && (forall|g: int|
                0 <= g < blob_fes(blobs@).len() ==> is_valid_fe(#[trigger] blob_fes(blobs@)[g])) ==> match decode_fes(
                self.spec_prepend_length(),
                blob_fes(blobs@).skip(1),
            ) {
                Ok(items) => res matches Ok(v) && vec_views(v@) == items,
                Err(e) => res == Err::<Vec<Vec<u8>>, DecodeError>(e),
            },
    {
        if blobs.len() == 0 {
            return Err(DecodeError::NoBlobs);
        }
        let ghost all = blob_fes(blobs@);

        // Validate and collect all field elements
        let mut fes: Vec<[u8; 32]> = Vec::new();
        let mut b: usize = 0;
        while b < blobs.len()
            invariant
                forall|x: int| 0 <= x < blobs.len() ==> #[trigger] blobs@[x].len() == BYTES_PER_BLOB,
                blobs.len() <= usize::MAX / 131072,
                all == blob_fes(blobs@),
                b <= blobs.len(),
                fe_views(fes@) == all.take(4096 * b),
                forall|g: int| 0 <= g < 4096 * b ==> is_valid_fe(#[trigger] all[g]),
            decreases blobs.len() - b,
        {
            let blob = &blobs[b];
            assert(blobs@[b as int].len() == BYTES_PER_BLOB);
            assert(*blob == blobs@[b as int]);
            assert(blob@.len() == BYTES_PER_BLOB);
            let mut j: usize = 0;
            while j < FIELD_ELEMENTS_PER_BLOB
                invariant
                    forall|x: int| 0 <= x < blobs.len() ==> #[trigger] blobs@[x].len() == BYTES_PER_BLOB,
                    blobs.len() <= usize::MAX / 131072,
                    all == blob_fes(blobs@),
                    b < blobs.len(),
                    *blob == blobs@[b as int],
                    blob@.len() == BYTES_PER_BLOB,
                    j <= 4096,
                    fe_views(fes@) == all.take(4096 * b + j),
                    forall|g: int| 0 <= g < 4096 * b + j ==> is_valid_fe(#[trigger] all[g]),
                decreases 4096 - j,
            {
                let mut fe: [u8; 32] = [0u8; 32];
                let mut t: usize = 0;
                while t < 32
                    invariant
                        blob@.len() == BYTES_PER_BLOB,
                        j < 4096,
                        t <= 32,
                        forall|q: int| 0 <= q < t ==> #[trigger] fe@[q] == blob@[32 * j + q],
                    decreases 32 - t,
                {
                    fe[t] = blob[32 * j + t];
                    t = t + 1;
                }
                let g = 4096 * b + j;
                assert(g / 4096 == b as int);
                assert(g % 4096 == j as int);
                assert(fe@ =~= all[g as int]);
                if !is_whole_fe(&fe) {
                    return Err(DecodeError::InvalidFieldElement);
                }
                let ghost old_fes = fe_views(fes@);
                fes.push(fe);
                j = j + 1;
                assert(fe_views(fes@) =~= old_fes.push(fe@));
                assert(fe_views(fes@) =~= all.take(4096 * b + j));
            }
            b = b + 1;
        }
        assert(fe_views(fes@) =~= all);

        // Skip the header field element, then decode the pieces of data
        let mut pos: usize = 1;
        let mut res: Vec<Vec<u8>> = Vec::new();
        let mut done = false;
        while !done
            invariant
                all == blob_fes(blobs@),
                blobs.len() > 0,
                forall|g: int| 0 <= g < all.len() ==> is_valid_fe(#[trigger] all[g]),
                fes.len() <= usize::MAX / 32,
                fe_views(fes@) == all,
                all.len() >= 4096,
                1 <= pos <= fes.len(),
                decode_fes(self.prepend_length, all.skip(1)) == if done {
                    Ok(vec_views(res@))
                } else {
                    prepend_items(vec_views(res@), decode_fes(self.prepend_length, all.skip(pos as int)))
                },
            decreases fes.len() - pos + if done { 0int } else { 1int },
        {
            let ghost rest = all.skip(pos as int);
            match self.decode_one(&fes, &mut pos) {
                Ok(Some(data)) => {
                    let ghost old_res = vec_views(res@);
                    res.push(data);
                    assert(vec_views(res@) =~= old_res.push(data@));
                    assert(rest.skip(claimed_fes(self.prepend_length, rest)) =~= all.skip(pos as int));
                    assert(old_res.push(data@) =~= old_res + seq![data@]);
                    proof {
                        match decode_fes(self.prepend_length, all.skip(pos as int)) {
                            Ok(more) => {
                                assert(old_res + (seq![data@] + more) =~= old_res.push(data@) + more);
                            },
                            Err(_) => {},
                        }
                    }
                },
                Ok(None) => {
                    assert(vec_views(res@) + seq![] =~= vec_views(res@));
                    done = true;
                },
                Err(e) => {
                    assert(decode_fes(self.prepend_length, rest) == Err::<Seq<Seq<u8>>, DecodeError>(e));
                    return Err(e);
                },
            }
        }
        Ok(res)
    }

    /// Decode all pieces of data from the blobs (see `try_decode_all`).
    ///
    /// Returns `None` if there are no blobs, if any field element has one of its
    /// top two bits set, if a piece claims more than `MAX_ALLOCATION_SIZE` bytes,
    /// or if a piece claims more field elements than there are left.
    pub fn decode_all(&mut self, blobs: &[Vec<u8>]) -> (res: Option<Vec<Vec<u8>>>)
        requires
            forall|b: int| 0 <= b < blobs.len() ==> #[trigger] blobs@[b].len() == BYTES_PER_BLOB,
            blobs.len() <= usize::MAX / 131072,
        ensures
            *final(self) == *old(self),
            match decode_blobs(old(self).spec_prepend_length(), blobs@) {
                None => res is None,
                Some(items) => res matches Some(v) && vec_views(v@) == items,
            },
    {
        match self.try_decode_all(blobs) {
            Ok(items) => Some(items),
            Err(_) => None,
        }
    }

    /// Number of field elements reserved for `data`: the header (if not yet
    /// written), the length prefix (if any) and the data, at 254 bits each.
    pub fn required_fe(&self, data: &[u8]) -> (n: usize)
        requires
            data.len() <= (usize::MAX - 1024) / 8,
        ensures
            n == required_fes(self.spec_prepend_length(), self.spec_header_prepended(), data.len() as nat),
    {
        let mut total_bits: usize = 0;

        // Reserve space for the header
        if !self.header_prepended {
            total_bits = total_bits + USABLE_BITS_PER_FIELD_ELEMENT;
        }

        // Reserve space for the length prefix
        if self.prepend_length {
            total_bits = total_bits + LENGTH_PREFIX_BITS;
        }

        // Reserve space for the data
        total_bits = total_bits + data.len() * 8;

        // 254 bits fit into each field element
        (total_bits + USABLE_BITS_PER_FIELD_ELEMENT - 1) / USABLE_BITS_PER_FIELD_ELEMENT
    }

    /// Write `data` into the sidecar: the header field element first, if it is
    /// not yet written; then, for non-empty data, its bits (after the 32-bit
    /// big-endian length prefix, if the coder prefixes) packed into field elements.
    pub fn code(&mut self, builder: &mut PartialSidecar, data: &[u8])
        requires
            data.len() <= (usize::MAX - 1024) / 8,
        ensures
            sidecar_fes(*final(builder)) == sidecar_fes(*old(builder)) + encoded_fes(
                old(self).spec_prepend_length(),
                old(self).spec_header_prepended(),
                data@,
            ),
            final(self).spec_prepend_length() == old(self).spec_prepend_length(),
            final(self).spec_header_prepended(),
    {
        let ghost before = sidecar_fes(*builder);
        let ghost header: Seq<Seq<u8>> = if self.header_prepended {
            Seq::empty()
        } else {
            seq![header_fe()]
        };

        // Prepend the header only once
        if !self.header_prepended {
            let name = self.get_name();
            let mut name_bits = Self::bytes_to_bits(name.as_bytes());
            proof {
                lemma_coder_name_len();
            }

            // Pad the header to exactly 254 bits
            while name_bits.len() < USABLE_BITS_PER_FIELD_ELEMENT
                invariant
                    184 <= name_bits.len() <= 254,
                    name_bits@ == bits_of_bytes(coder_name()) + Seq::new(
                        (name_bits.len() - 184) as nat,
                        |i: int| false,
                    ),
                decreases 254 - name_bits.len(),
            {
                name_bits.push(false);
                assert(name_bits@ =~= bits_of_bytes(coder_name()) + Seq::new(
                    (name_bits.len() - 184) as nat,
                    |i: int| false,
                ));
            }
            assert(name_bits@ =~= header_bits());
            let fes = Self::bits_to_field_elements(&name_bits);
            assert(fe_views(fes@).len() == fes@.len());
            assert(fes_for_bits(254) == 1);
            assert(fe_views(fes@)[0] == fes[0]@);
            let fe = fes[0];
            proof {
                lemma_fe_of_chunk_valid(header_bits(), 0);
            }
            ingest_fe(builder, &fe);
            self.header_prepended = true;
        }
        assert(sidecar_fes(*builder) =~= before + header);

        if data.len() == 0 {
            return;
        }

        // The length prefix, if the coder prefixes, then the data
        let mut data_bits: Vec<bool> = Vec::new();
        if self.prepend_length {
            let length: u32 = #[verifier::truncate] (data.len() as u32);
            let prefix: [u8; 4] = [
                (length / 16777216) as u8,
                ((length / 65536) % 256) as u8,
                ((length / 256) % 256) as u8,
                (length % 256) as u8,
            ];
            assert(prefix@ =~= be_bytes(data.len() as u32));
            data_bits = Self::bytes_to_bits(&prefix);
        }
        let ghost prefix_bits = data_bits@;
        let payload = Self::bytes_to_bits(data);
        let mut q: usize = 0;
        while q < payload.len()
            invariant
                q <= payload.len(),
                payload@ == bits_of_bytes(data@),
                data_bits@ == prefix_bits + payload@.take(q as int),
            decreases payload.len() - q,
        {
            data_bits.push(payload[q]);
            q = q + 1;
            assert(data_bits@ =~= prefix_bits + payload@.take(q as int));
        }
        assert(payload@.take(q as int) =~= payload@);
        assert(data_bits@ == payload_bits(self.prepend_length, data@));

        // Pack the bits into field elements and ingest each of them
        let fes = Self::bits_to_field_elements(&data_bits);
        let mut i: usize = 0;
        while i < fes.len()
            invariant
                i <= fes.len(),
                fe_views(fes@) == fes_of_bits(data_bits@),
                sidecar_fes(*builder) == before + header + fe_views(fes@).take(i as int),
            decreases fes.len() - i,
        {
            let fe = fes[i];
            assert(fe_views(fes@).len() == fes@.len());
            assert(fe@ == fe_views(fes@)[i as int]);
            assert(fes_of_bits(data_bits@)[i as int] == fe_of_chunk(data_bits@, i as int));
            proof {
                lemma_fe_of_chunk_valid(data_bits@, i as int);
            }
            ingest_fe(builder, &fe);
            i = i + 1;
            assert(fe_views(fes@).take(i as int) =~= fe_views(fes@).take(i - 1).push(fe@));
        }
        assert(fe_views(fes@).take(i as int) =~= fe_views(fes@));
    }
}

} // verus!
