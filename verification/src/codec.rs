//! The URL-safe base64 binary codec for grids. A code is exactly 8 header
//! characters (the padded encoding of width and height, little-endian 16 bits
//! each) followed, when the grid has any cells, by the unpadded encoding of
//! the cells packed four 2-bit values to a byte, row-major, lowest bits
//! first.

use vstd::prelude::*;
use vstd::string::StrSliceExecFns;
use vstd::string::StringExecFns;

use crate::cell::CellCodec;
use crate::grid::Grid;

verus! {

/// Why a puzzle code failed to decode.
#[derive(Clone, Copy, Debug, PartialEq, Eq, Structural)]
pub enum DeserializationError {
    /// The input is shorter than the 8-character header, or the body is
    /// longer than the maximum possible for the declared dimensions.
    LengthMismatch,
    /// A character outside the base64 alphabet, or a header that does not
    /// decode to exactly 4 bytes.
    InvalidEncoding,
}

/// What `base64::encode_config` with the URL-safe alphabet and no padding
/// returns for a byte sequence.
pub uninterp spec fn b64u_of(b: Seq<u8>) -> Seq<char>;

/// Length of the unpadded URL-safe base64 encoding of `n` bytes: four
/// characters for every three bytes, rounded up.
pub open spec fn b64u_len(n: int) -> int {
    (4 * n + 2) / 3
}

/// Number of `'='` characters the padded encoding appends for `n` bytes.
pub open spec fn b64_pad_len(n: int) -> int {
    (4 - b64u_len(n) % 4) % 4
}

/// A run of `k` padding characters.
pub open spec fn pad_seq(k: int) -> Seq<char> {
    Seq::new(k as nat, |i: int| '=')
}

/// Relies on `base64::encode_config` with `base64::URL_SAFE`: the URL-safe
/// alphabet, padded with `'='` up to a multiple of four characters. The
/// padded text is the unpadded encoding followed by the padding run, and the
/// unpadded encoding's length is determined by the input length.
#[verifier::external_body]
fn b64_encode_pad(b: &[u8]) -> (r: String)
    ensures
        r@ == b64u_of(b@) + pad_seq(b64_pad_len(b@.len() as int)),
        r@.len() == b64u_len(b@.len() as int) + b64_pad_len(b@.len() as int),
{
    base64::encode_config(b, base64::URL_SAFE)
}

/// Relies on `base64::encode_config` with `base64::URL_SAFE_NO_PAD`: the
/// URL-safe alphabet without padding. The result's length is determined by
/// the input length.
#[verifier::external_body]
fn b64_encode(b: &[u8]) -> (r: String)
    ensures
        r@ == b64u_of(b@),
        r@.len() == b64u_len(b@.len() as int),
{
    base64::encode_config(b, base64::URL_SAFE_NO_PAD)
}

/// Relies on `base64::decode_config` with `base64::URL_SAFE`. The decoder
/// accepts exactly the unpadded URL-safe encoding of some byte sequence
/// followed by up to `b64_pad_len` `'='` characters (it tolerates missing or
/// partial padding, and its padding handling does not depend on the config's
/// pad flag), rejects everything else — unknown characters, misplaced
/// padding, impossible lengths, and encodings whose unused trailing bits are
/// not zero — and returns the encoded bytes.
#[verifier::external_body]
fn b64_decode(s: &str) -> (r: Option<Vec<u8>>)
    ensures
        match r {
            Some(d) => {
                &&& exists|k: int|
                    0 <= k <= b64_pad_len(d@.len() as int) && s@ == b64u_of(d@) + pad_seq(k)
                &&& b64u_of(d@).len() == b64u_len(d@.len() as int)
                &&& forall|b: Seq<u8>, k: int|
                    #![trigger b64u_of(b), pad_seq(k)]
                    0 <= k <= b64_pad_len(b.len() as int) && s@ == b64u_of(b) + pad_seq(k)
                        ==> b == d@
            },
            None => forall|b: Seq<u8>, k: int|
                #![trigger b64u_of(b), pad_seq(k)]
                0 <= k <= b64_pad_len(b.len() as int) ==> s@ != b64u_of(b) + pad_seq(k),
        },
        s@.len() == 0 ==> match r {
            Some(d) => d@ == Seq::<u8>::empty(),
            None => false,
        },
{
    base64::decode_config(s, base64::URL_SAFE).ok()
}

/// The byte holding four 2-bit cell values: offset 0 in bits 0–1 up to
/// offset 3 in bits 6–7.
pub open spec fn pack_byte(b0: u8, b1: u8, b2: u8, b3: u8) -> u8 {
    b0 | (b1 << 2) | (b2 << 4) | (b3 << 6)
}

/// The 2-bit value at position `i`, or 0 past the end (unused high bits of
/// the final byte are zero).
pub open spec fn bits_at(bits: Seq<u8>, i: int) -> u8 {
    if 0 <= i < bits.len() {
        bits[i]
    } else {
        0
    }
}

/// Cell values packed four to a byte, lowest bits first.
pub open spec fn pack_bits(bits: Seq<u8>) -> Seq<u8> {
    Seq::new(
        (((bits.len() + 3) as int) / 4) as nat,
        |j: int|
            pack_byte(
                bits_at(bits, 4 * j),
                bits_at(bits, 4 * j + 1),
                bits_at(bits, 4 * j + 2),
                bits_at(bits, 4 * j + 3),
            ),
    )
}

/// The 2-bit value stored for cell `k` of a packed byte sequence.
pub open spec fn unpacked_bits(bytes: Seq<u8>, k: int) -> u8 {
    (bytes[k / 4] >> ((2 * (k % 4)) as u8)) & 3
}

/// The 2-bit encodings of a cell sequence.
pub open spec fn cell_bits<T: CellCodec>(cells: Seq<T>) -> Seq<u8> {
    cells.map_values(|c: T| c.bits_spec())
}

/// The cell sequence a packed body expands to: `n` cells, each read from its
/// 2-bit slot, default past the end of the decoded bytes.
pub open spec fn unpack_cells<T: CellCodec>(bytes: Seq<u8>, n: int) -> Seq<T> {
    Seq::new(
        n as nat,
        |k: int|
            if k < 4 * bytes.len() {
                T::from_bits_spec(unpacked_bits(bytes, k))
            } else {
                T::default_spec()
            },
    )
}

/// Every cell survives the 2-bit round trip.
pub open spec fn all_canonical<T: CellCodec>(cells: Seq<T>) -> bool {
    forall|i: int| 0 <= i < cells.len() ==> (#[trigger] cells[i]).is_canonical()
}

/// The four header bytes: width then height, each little-endian 16 bits.
pub open spec fn dims_bytes(w: int, h: int) -> Seq<u8> {
    seq![(w % 256) as u8, (w / 256) as u8, (h % 256) as u8, (h / 256) as u8]
}

/// The full text a grid encodes to: 8 header characters, then the packed
/// body when the grid has any cells.
pub open spec fn encode_model<T: CellCodec>(w: int, h: int, cells: Seq<T>) -> Seq<char> {
    b64u_of(dims_bytes(w, h)) + pad_seq(2) + if w * h > 0 {
        b64u_of(pack_bits(cell_bits(cells)))
    } else {
        Seq::<char>::empty()
    }
}

/// The encoding-length facts that hold of an encoded grid; established by
/// `serialize_base64` and consumed by the round-trip clause of
/// `from_base64`.
pub open spec fn encode_model_lens_ok<T: CellCodec>(w: int, h: int, cells: Seq<T>) -> bool {
    &&& b64u_of(dims_bytes(w, h)).len() == 6
    &&& (w * h > 0 ==> b64u_of(pack_bits(cell_bits(cells))).len() == b64u_len(
        pack_bits(cell_bits(cells)).len() as int,
    ))
}

/// The text is the encoding of a grid of the given dimensions and cells,
/// together with the facts `serialize_base64` establishes about it.
pub open spec fn valid_model<T: CellCodec>(s: Seq<char>, w: int, h: int, cells: Seq<T>) -> bool {
    &&& 0 <= w <= 0xFFFF
    &&& 0 <= h <= 0xFFFF
    &&& cells.len() == w * h
    &&& all_canonical(cells)
    &&& encode_model_lens_ok::<T>(w, h, cells)
    &&& s == encode_model::<T>(w, h, cells)
}

/// The first 8 characters are the padded encoding of exactly 4 bytes.
pub open spec fn header_decodes(s: Seq<char>) -> bool {
    exists|hd: Seq<u8>| hd.len() == 4 && #[trigger] b64u_of(hd) + pad_seq(2) == s.subrange(0, 8)
}

/// The 4 bytes the header encodes.
pub open spec fn spec_header_bytes(s: Seq<char>) -> Seq<u8> {
    choose|hd: Seq<u8>| hd.len() == 4 && #[trigger] b64u_of(hd) + pad_seq(2) == s.subrange(0, 8)
}

/// The width the header declares.
pub open spec fn spec_width(s: Seq<char>) -> int {
    spec_header_bytes(s)[0] + 0x100 * spec_header_bytes(s)[1]
}

/// The height the header declares.
pub open spec fn spec_height(s: Seq<char>) -> int {
    spec_header_bytes(s)[2] + 0x100 * spec_header_bytes(s)[3]
}

/// The longest body text the declared dimensions allow.
pub open spec fn body_limit(w: int, h: int) -> int {
    (w * h / 4 + 1) * 4 / 3 + 4
}

/// The characters after the header are the encoding of some byte sequence,
/// possibly followed by its padding run.
pub open spec fn body_decodes(s: Seq<char>) -> bool {
    exists|content: Seq<u8>, k: int|
        #![trigger b64u_of(content), pad_seq(k)]
        0 <= k <= b64_pad_len(content.len() as int) && b64u_of(content) + pad_seq(k) == s.skip(8)
}

/// The bytes the body encodes.
pub open spec fn spec_body_bytes(s: Seq<char>) -> Seq<u8> {
    (choose|content: Seq<u8>, k: int|
        #![trigger b64u_of(content), pad_seq(k)]
        0 <= k <= b64_pad_len(content.len() as int) && b64u_of(content) + pad_seq(k) == s.skip(
            8,
        )).0
}

/// The decoder accepts the whole text: long enough for the header, header
/// and body decode, and the body fits the declared dimensions. `from_base64`
/// returns `Ok` exactly on these inputs.
pub open spec fn code_decodes(s: Seq<char>) -> bool {
    &&& s.len() >= 8
    &&& header_decodes(s)
    &&& s.len() - 8 <= body_limit(spec_width(s), spec_height(s))
    &&& body_decodes(s)
}

/// Unpacking a packed canonical cell sequence restores it.
proof fn lemma_pack_round_trip<T: CellCodec>(cells: Seq<T>)
    requires
        all_canonical(cells),
    ensures
        unpack_cells::<T>(pack_bits(cell_bits(cells)), cells.len() as int) == cells,
{
    let bits = cell_bits(cells);
    let packed = pack_bits(bits);
    let n = cells.len() as int;
    assert(4 * packed.len() >= n) by {
        assert(4 * ((n + 3) / 4) >= n) by (nonlinear_arith);
    }
    assert forall|i: int| 0 <= i < bits.len() implies bits[i] < 4 by {
        cells[i].lemma_canonical_round_trip();
    }
    assert forall|k: int| 0 <= k < n implies unpack_cells::<T>(packed, n)[k] == cells[k] by {
        cells[k].lemma_canonical_round_trip();
        lemma_unpack_pack(bits, k);
        assert(unpacked_bits(packed, k) == bits[k]);
        assert(T::from_bits_spec(bits[k]) == cells[k]);
    }
    assert(unpack_cells::<T>(packed, n) =~= cells);
}

/// The 2-bit slot `k` of a packed sequence holds the `k`-th input value.
proof fn lemma_unpack_pack(bits: Seq<u8>, k: int)
    requires
        forall|i: int| 0 <= i < bits.len() ==> bits[i] < 4,
        0 <= k < bits.len(),
    ensures
        unpacked_bits(pack_bits(bits), k) == bits[k],
{
    let j = k / 4;
    let o = k % 4;
    vstd::arithmetic::div_mod::lemma_fundamental_div_mod(k, 4);
    assert(0 <= o < 4);
    assert(k == 4 * j + o);
    assert(j < (bits.len() + 3) as int / 4) by {
        assert(4 * j < bits.len());
        assert(4 * ((bits.len() + 3) as int / 4) >= bits.len()) by (nonlinear_arith);
    }
    let b0 = bits_at(bits, 4 * j);
    let b1 = bits_at(bits, 4 * j + 1);
    let b2 = bits_at(bits, 4 * j + 2);
    let b3 = bits_at(bits, 4 * j + 3);
    assert(b0 < 4 && b1 < 4 && b2 < 4 && b3 < 4);
    assert(pack_bits(bits)[j] == pack_byte(b0, b1, b2, b3));
    lemma_pack_byte_slots(b0, b1, b2, b3);
    if o == 0 {
        assert(bits_at(bits, 4 * j) == bits[k]);
    } else if o == 1 {
        assert(bits_at(bits, 4 * j + 1) == bits[k]);
    } else if o == 2 {
        assert(bits_at(bits, 4 * j + 2) == bits[k]);
    } else {
        assert(bits_at(bits, 4 * j + 3) == bits[k]);
    }
}

/// Each 2-bit slot of a packed byte reads back unchanged.
proof fn lemma_pack_byte_slots(b0: u8, b1: u8, b2: u8, b3: u8)
    requires
        b0 < 4,
        b1 < 4,
        b2 < 4,
        b3 < 4,
    ensures
        (pack_byte(b0, b1, b2, b3) >> 0u8) & 3 == b0,
        (pack_byte(b0, b1, b2, b3) >> 2u8) & 3 == b1,
        (pack_byte(b0, b1, b2, b3) >> 4u8) & 3 == b2,
        (pack_byte(b0, b1, b2, b3) >> 6u8) & 3 == b3,
{
    assert(((b0 | (b1 << 2) | (b2 << 4) | (b3 << 6)) >> 0u8) & 3 == b0) by (bit_vector)
        requires
            b0 < 4 && b1 < 4 && b2 < 4 && b3 < 4,
    ;
    assert(((b0 | (b1 << 2) | (b2 << 4) | (b3 << 6)) >> 2u8) & 3 == b1) by (bit_vector)
        requires
            b0 < 4 && b1 < 4 && b2 < 4 && b3 < 4,
    ;
    assert(((b0 | (b1 << 2) | (b2 << 4) | (b3 << 6)) >> 4u8) & 3 == b2) by (bit_vector)
        requires
            b0 < 4 && b1 < 4 && b2 < 4 && b3 < 4,
    ;
    assert(((b0 | (b1 << 2) | (b2 << 4) | (b3 << 6)) >> 6u8) & 3 == b3) by (bit_vector)
        requires
            b0 < 4 && b1 < 4 && b2 < 4 && b3 < 4,
    ;
}

impl<T: CellCodec> Grid<T> {
    /// Encode this grid as a puzzle code: the 8-character padded header,
    /// then (for a non-empty grid) the unpadded packed body.
    pub fn serialize_base64(&self) -> (r: String)
        requires
            self.wf(),
        ensures
            r@ == encode_model(self.width_spec(), self.height_spec(), self.cells_spec()),
            encode_model_lens_ok(self.width_spec(), self.height_spec(), self.cells_spec()),
            r@.len() >= 8,
    {
        let w = self.width();
        let h = self.height();
        let mut dims: Vec<u8> = Vec::new();
        dims.push((w % 0x100) as u8);
        dims.push((w / 0x100) as u8);
        dims.push((h % 0x100) as u8);
        dims.push((h / 0x100) as u8);
        proof {
            assert(dims@ =~= dims_bytes(w as int, h as int));
            assert(b64_pad_len(4) == 2);
        }
        let mut res = b64_encode_pad(dims.as_slice());
        if w > 0 && h > 0 {
            proof {
                self.lemma_area();
                assert(w * h > 0) by (nonlinear_arith)
                    requires
                        w > 0,
                        h > 0,
                ;
            }
            let packed = self.pack_cells();
            let body = b64_encode(packed.as_slice());
            res.append(body.as_str());
        } else {
            proof {
                assert(self.width_spec() * self.height_spec() == 0) by (nonlinear_arith)
                    requires
                        self.width_spec() == 0 || self.height_spec() == 0,
                ;
                assert(res@ =~= res@ + Seq::<char>::empty());
            }
        }
        res
    }

    /// The packed body bytes of this grid: cells four to a byte, row-major.
    fn pack_cells(&self) -> (r: Vec<u8>)
        requires
            self.wf(),
        ensures
            r@ == pack_bits(cell_bits(self.cells_spec())),
    {
        let ghost bits = cell_bits(self.cells_spec());
        let n = self.len();
        proof {
            self.lemma_wf_bounds();
            assert(self.width_spec() * self.height_spec() <= 0xFFFF * 0xFFFF)
                by (nonlinear_arith)
                requires
                    0 <= self.width_spec() <= 0xFFFF,
                    0 <= self.height_spec() <= 0xFFFF,
            ;
        }
        let n_bytes = (n + 3) / 4;
        let mut out: Vec<u8> = Vec::new();
        let mut j: usize = 0;
        while j < n_bytes
            invariant
                j <= n_bytes,
                n == self.cells_spec().len(),
                n_bytes == (n + 3) as int / 4,
                self.wf(),
                bits == cell_bits(self.cells_spec()),
                out@ == pack_bits(bits).take(j as int),
            decreases n_bytes - j,
        {
            proof {
                assert(4 * j + 3 < 4 * n_bytes) by (nonlinear_arith)
                    requires
                        j < n_bytes,
                ;
                assert(4 * n_bytes <= n + 3) by (nonlinear_arith)
                    requires
                        n_bytes == (n + 3) as int / 4,
                ;
            }
            let base = 4 * j;
            let b0 = self.bits_of_cell(base, Ghost(bits));
            let b1 = self.bits_of_cell(base + 1, Ghost(bits));
            let b2 = self.bits_of_cell(base + 2, Ghost(bits));
            let b3 = self.bits_of_cell(base + 3, Ghost(bits));
            let byte = b0 | (b1 << 2u8) | (b2 << 4u8) | (b3 << 6u8);
            out.push(byte);
            proof {
                assert(byte == pack_bits(bits)[j as int]);
                assert(out@ =~= pack_bits(bits).take(j + 1));
            }
            j += 1;
        }
        proof {
            assert(out@ =~= pack_bits(bits));
        }
        out
    }

    /// The 2-bit value of the cell at flat position `i`, 0 past the end.
    fn bits_of_cell(&self, i: usize, Ghost(bits): Ghost<Seq<u8>>) -> (b: u8)
        requires
            self.wf(),
            bits == cell_bits(self.cells_spec()),
        ensures
            b == bits_at(bits, i as int),
    {
        if i < self.len() {
            self.get_flat(i).to_bits()
        } else {
            0
        }
    }

    /// Decode a puzzle code. The input is rejected when it is shorter than
    /// the header, when the header is not the padded encoding of exactly
    /// 4 bytes, when the body is longer than the declared dimensions allow,
    /// and when the body is not a valid unpadded encoding; decoding an
    /// encoded grid restores it exactly (the final clause).
    pub fn from_base64(src: &str) -> (r: Result<Grid<T>, DeserializationError>)
        ensures
            match r {
                Ok(g) => {
                    &&& code_decodes(src@)
                    &&& g.wf()
                    &&& g.width_spec() == spec_width(src@)
                    &&& g.height_spec() == (if spec_width(src@) == 0 {
                        0int
                    } else {
                        spec_height(src@)
                    })
                    &&& g.cells_spec() == unpack_cells::<T>(
                        spec_body_bytes(src@),
                        spec_width(src@) * spec_height(src@),
                    )
                },
                Err(DeserializationError::LengthMismatch) => {
                    ||| src@.len() < 8
                    ||| {
                        &&& src@.len() >= 8
                        &&& header_decodes(src@)
                        &&& src@.len() - 8 > body_limit(spec_width(src@), spec_height(src@))
                    }
                },
                Err(DeserializationError::InvalidEncoding) => {
                    &&& src@.len() >= 8
                    &&& {
                        ||| !header_decodes(src@)
                        ||| {
                            &&& header_decodes(src@)
                            &&& src@.len() - 8 <= body_limit(spec_width(src@), spec_height(src@))
                            &&& !body_decodes(src@)
                        }
                    }
                },
            },
            forall|w: int, h: int, cells: Seq<T>|
                #[trigger] valid_model::<T>(src@, w, h, cells) ==> match r {
                    Ok(g) => {
                        &&& g.width_spec() == w
                        &&& g.height_spec() == (if w == 0 {
                            0int
                        } else {
                            h
                        })
                        &&& g.cells_spec() == cells
                    },
                    Err(_) => false,
                },
    {
        let n = src.unicode_len();
        if n < 8 {
            proof {
                assert forall|w: int, h: int, cells: Seq<T>|
                    valid_model::<T>(src@, w, h, cells) implies false by {
                    lemma_model_shape::<T>(src@, w, h, cells);
                }
            }
            return Err(DeserializationError::LengthMismatch);
        }
        let header = src.substring_char(0, 8);
        let decoded_header = b64_decode(header);
        let hd = match decoded_header {
            Some(hd) => hd,
            None => {
                proof {
                    lemma_no_header(src@);
                    assert forall|w: int, h: int, cells: Seq<T>|
                        valid_model::<T>(src@, w, h, cells) implies false by {
                        lemma_model_shape::<T>(src@, w, h, cells);
                        assert(b64_pad_len(4) == 2);
                        assert(header@ == b64u_of(dims_bytes(w, h)) + pad_seq(2));
                    }
                }
                return Err(DeserializationError::InvalidEncoding);
            },
        };
        if hd.len() != 4 {
            proof {
                lemma_wrong_header_len(src@, hd@);
                assert forall|w: int, h: int, cells: Seq<T>|
                    valid_model::<T>(src@, w, h, cells) implies false by {
                    lemma_model_shape::<T>(src@, w, h, cells);
                    assert(b64_pad_len(4) == 2);
                    assert(header@ == b64u_of(dims_bytes(w, h)) + pad_seq(2));
                    assert(dims_bytes(w, h) == hd@);
                }
            }
            return Err(DeserializationError::InvalidEncoding);
        }
        proof {
            assert(b64_pad_len(4) == 2);
            lemma_header_bytes_unique(src@, hd@);
        }
        let w = hd[0] as usize + 0x100 * (hd[1] as usize);
        let h = hd[2] as usize + 0x100 * (hd[3] as usize);
        proof {
            assert(w == spec_width(src@));
            assert(h == spec_height(src@));
            assert(w * h <= 0xFFFF * 0xFFFF) by (nonlinear_arith)
                requires
                    w <= 0xFFFF,
                    h <= 0xFFFF,
            ;
        }
        let wh = w * h;
        let limit = (wh / 4 + 1) * 4 / 3 + 4;
        if n - 8 > limit {
            proof {
                assert forall|w2: int, h2: int, cells: Seq<T>|
                    valid_model::<T>(src@, w2, h2, cells) implies false by {
                    lemma_model_shape::<T>(src@, w2, h2, cells);
                    assert(b64_pad_len(4) == 2);
                    assert(header@ == b64u_of(dims_bytes(w2, h2)) + pad_seq(2));
                    assert(dims_bytes(w2, h2) == hd@);
                    lemma_dims_recovered(w2, h2);
                    assert(w == w2 && h == h2);
                    if w2 * h2 > 0 {
                        lemma_body_fits(w2 * h2);
                        assert(src@.len() - 8 <= limit);
                    } else {
                        assert(src@.len() == 8);
                    }
                }
            }
            return Err(DeserializationError::LengthMismatch);
        }
        let body = src.substring_char(8, n);
        proof {
            assert(body@ =~= src@.skip(8));
        }
        let content = match b64_decode(body) {
            Some(content) => content,
            None => {
                proof {
                    lemma_no_body(src@);
                    assert forall|w2: int, h2: int, cells: Seq<T>|
                        valid_model::<T>(src@, w2, h2, cells) implies false by {
                        lemma_model_shape::<T>(src@, w2, h2, cells);
                        if w2 * h2 > 0 {
                            let packed = pack_bits(cell_bits(cells));
                            assert(b64_pad_len(packed.len() as int) >= 0);
                            assert(body@ =~= b64u_of(packed) + pad_seq(0));
                        } else {
                            assert(body@.len() == 0);
                        }
                    }
                }
                return Err(DeserializationError::InvalidEncoding);
            },
        };
        proof {
            lemma_body_bytes_unique(src@, content@);
        }
        let mut cells: Vec<T> = Vec::new();
        let quarter = (wh + 3) / 4;
        let take = if content.len() >= quarter {
            proof {
                assert(4 * ((wh + 3) as int / 4) >= wh) by (nonlinear_arith);
                assert(4 * content@.len() >= 4 * ((wh + 3) as int / 4)) by (nonlinear_arith)
                    requires
                        content@.len() >= (wh + 3) as int / 4,
                ;
            }
            wh
        } else {
            proof {
                assert(4 * content@.len() < 4 * ((wh + 3) as int / 4)) by (nonlinear_arith)
                    requires
                        content@.len() < (wh + 3) as int / 4,
                ;
                assert(4 * ((wh + 3) as int / 4) <= wh + 3) by (nonlinear_arith);
            }
            4 * content.len()
        };
        let ghost target = unpack_cells::<T>(content@, wh as int);
        let mut k: usize = 0;
        while k < take
            invariant
                k <= take,
                take <= wh,
                take <= 4 * content@.len(),
                take == wh || take == 4 * content@.len(),
                target == unpack_cells::<T>(content@, wh as int),
                cells@ == target.take(k as int),
            decreases take - k,
        {
            proof {
                assert(k / 4 < content@.len()) by (nonlinear_arith)
                    requires
                        k < 4 * content@.len(),
                        0 <= k,
                ;
            }
            let byte = content[k / 4];
            let sh = (2 * (k % 4)) as u8;
            let b = (byte >> sh) & 3;
            proof {
                assert((byte >> sh) & 3 < 4) by (bit_vector);
                assert(b == unpacked_bits(content@, k as int));
            }
            cells.push(T::from_bits(b));
            proof {
                assert(cells@ =~= target.take(k + 1));
            }
            k += 1;
        }
        while k < wh
            invariant
                take <= k <= wh,
                take == wh || take == 4 * content@.len(),
                take <= 4 * content@.len(),
                target == unpack_cells::<T>(content@, wh as int),
                cells@ == target.take(k as int),
            decreases wh - k,
        {
            cells.push(T::default_item());
            proof {
                assert(k >= 4 * content@.len());
                assert(cells@ =~= target.take(k + 1));
            }
            k += 1;
        }
        proof {
            assert(cells@ =~= target);
            assert(w * h <= w * 0xFFFF) by (nonlinear_arith)
                requires
                    h <= 0xFFFF,
                    0 <= w,
            ;
        }
        let grid = Grid::from_flat_exact(w, h, cells);
        proof {
            assert(wh == spec_width(src@) * spec_height(src@));
            assert(limit == body_limit(spec_width(src@), spec_height(src@)));
            assert forall|w2: int, h2: int, cells2: Seq<T>|
                valid_model::<T>(src@, w2, h2, cells2) implies {
                &&& grid.width_spec() == w2
                &&& grid.height_spec() == (if w2 == 0 {
                    0int
                } else {
                    h2
                })
                &&& grid.cells_spec() == cells2
            } by {
                lemma_model_shape::<T>(src@, w2, h2, cells2);
                assert(b64_pad_len(4) == 2);
                assert(header@ == b64u_of(dims_bytes(w2, h2)) + pad_seq(2));
                assert(dims_bytes(w2, h2) == hd@);
                lemma_dims_recovered(w2, h2);
                assert(w == w2 && h == h2);
                if w2 * h2 > 0 {
                    let packed = pack_bits(cell_bits(cells2));
                    assert(b64_pad_len(packed.len() as int) >= 0);
                    assert(body@ =~= b64u_of(packed) + pad_seq(0));
                    assert(content@ == packed);
                    lemma_pack_round_trip::<T>(cells2);
                    assert(grid.cells_spec() == unpack_cells::<T>(packed, cells2.len() as int));
                    assert(grid.cells_spec() == cells2);
                } else {
                    assert(body@.len() == 0);
                    assert(content@ == Seq::<u8>::empty());
                    assert(grid.cells_spec() =~= cells2);
                }
            }
        }
        Ok(grid)
    }
}

/// The little-endian header bytes of 16-bit dimensions read back as the
/// dimensions themselves.
proof fn lemma_dims_recovered(w: int, h: int)
    requires
        0 <= w <= 0xFFFF,
        0 <= h <= 0xFFFF,
    ensures
        dims_bytes(w, h)[0] + 0x100 * dims_bytes(w, h)[1] == w,
        dims_bytes(w, h)[2] + 0x100 * dims_bytes(w, h)[3] == h,
{
    vstd::arithmetic::div_mod::lemma_fundamental_div_mod(w, 256);
    vstd::arithmetic::div_mod::lemma_fundamental_div_mod(h, 256);
    assert(0 <= w % 256 < 256 && 0 <= w / 256 < 256);
    assert(0 <= h % 256 < 256 && 0 <= h / 256 < 256);
}

/// The body of an encoded grid never exceeds the decoder's length bound for
/// its dimensions.
proof fn lemma_body_fits(n: int)
    requires
        n >= 0,
    ensures
        b64u_len((n + 3) / 4) <= (n / 4 + 1) * 4 / 3 + 4,
{
    let a = (n + 3) / 4;
    let b = n / 4;
    vstd::arithmetic::div_mod::lemma_fundamental_div_mod(n + 3, 4);
    vstd::arithmetic::div_mod::lemma_fundamental_div_mod(n, 4);
    assert(a <= b + 1);
    vstd::arithmetic::div_mod::lemma_div_is_ordered(4 * a + 2, 4 * b + 6, 3);
    vstd::arithmetic::div_mod::lemma_div_is_ordered(4 * b + 6, 4 * b + 7, 3);
    vstd::arithmetic::div_mod::lemma_fundamental_div_mod(4 * b + 4, 3);
    let q = (4 * b + 4) / 3;
    let rr = (4 * b + 4) % 3;
    vstd::arithmetic::div_mod::lemma_fundamental_div_mod_converse(4 * b + 7, 3, q + 1, rr);
}

/// The shape the text of an encoded grid has: an 8-character header that
/// encodes the dimensions, then the packed body.
proof fn lemma_model_shape<T: CellCodec>(s: Seq<char>, w: int, h: int, cells: Seq<T>)
    requires
        valid_model::<T>(s, w, h, cells),
    ensures
        s.len() >= 8,
        s.subrange(0, 8) == b64u_of(dims_bytes(w, h)) + pad_seq(2),
        dims_bytes(w, h).len() == 4,
        w * h > 0 ==> s.skip(8) == b64u_of(pack_bits(cell_bits(cells))) && s.len() - 8
            == b64u_len(pack_bits(cell_bits(cells)).len() as int),
        w * h <= 0 ==> s.len() == 8 && s.skip(8) == Seq::<char>::empty(),
        pack_bits(cell_bits(cells)).len() == (w * h + 3) / 4,
{
    let hdr = b64u_of(dims_bytes(w, h)) + pad_seq(2);
    assert(hdr.len() == 8);
    assert(cell_bits(cells).len() == w * h);
    if w * h > 0 {
        let body = b64u_of(pack_bits(cell_bits(cells)));
        assert(s == hdr + body);
        assert(s.subrange(0, 8) =~= hdr);
        assert(s.skip(8) =~= body);
    } else {
        assert(s =~= hdr);
        assert(s.subrange(0, 8) =~= hdr);
        assert(s.skip(8) =~= Seq::<char>::empty());
    }
}


/// When the header decoder rejects the first 8 characters, no 4-byte header
/// exists.
proof fn lemma_no_header(s: Seq<char>)
    requires
        s.len() >= 8,
        forall|b: Seq<u8>, k: int|
            #![trigger b64u_of(b), pad_seq(k)]
            0 <= k <= b64_pad_len(b.len() as int) ==> s.subrange(0, 8) != b64u_of(b) + pad_seq(k),
    ensures
        !header_decodes(s),
{
    assert(b64_pad_len(4) == 2);
    assert forall|hd: Seq<u8>| hd.len() == 4 implies #[trigger] b64u_of(hd) + pad_seq(2)
        != s.subrange(0, 8) by {
        assert(s.subrange(0, 8) != b64u_of(hd) + pad_seq(2));
    }
}

/// When the header decodes to other than 4 bytes, no 4-byte header exists.
proof fn lemma_wrong_header_len(s: Seq<char>, d: Seq<u8>)
    requires
        s.len() >= 8,
        d.len() != 4,
        forall|b: Seq<u8>, k: int|
            #![trigger b64u_of(b), pad_seq(k)]
            0 <= k <= b64_pad_len(b.len() as int) && s.subrange(0, 8) == b64u_of(b) + pad_seq(k)
                ==> b == d,
    ensures
        !header_decodes(s),
{
    assert(b64_pad_len(4) == 2);
    assert forall|hd: Seq<u8>| hd.len() == 4 implies #[trigger] b64u_of(hd) + pad_seq(2)
        != s.subrange(0, 8) by {
        if b64u_of(hd) + pad_seq(2) == s.subrange(0, 8) {
            assert(hd == d);
        }
    }
}

/// The header bytes the decoder returned are the ones `spec_header_bytes`
/// names.
proof fn lemma_header_bytes_unique(s: Seq<char>, d: Seq<u8>)
    requires
        s.len() >= 8,
        d.len() == 4,
        exists|k: int| 0 <= k <= b64_pad_len(4) && s.subrange(0, 8) == b64u_of(d) + pad_seq(k),
        b64u_of(d).len() == b64u_len(4),
        forall|b: Seq<u8>, k: int|
            #![trigger b64u_of(b), pad_seq(k)]
            0 <= k <= b64_pad_len(b.len() as int) && s.subrange(0, 8) == b64u_of(b) + pad_seq(k)
                ==> b == d,
    ensures
        header_decodes(s),
        spec_header_bytes(s) == d,
{
    assert(b64_pad_len(4) == 2);
    assert(b64u_len(4) == 6);
    let k = choose|k: int| 0 <= k <= b64_pad_len(4) && s.subrange(0, 8) == b64u_of(d) + pad_seq(
        k,
    );
    assert(s.subrange(0, 8).len() == 8);
    assert(k == 2);
    assert(b64u_of(d) + pad_seq(2) == s.subrange(0, 8));
    assert(header_decodes(s));
    let hd = spec_header_bytes(s);
    assert(hd.len() == 4 && b64u_of(hd) + pad_seq(2) == s.subrange(0, 8));
    assert(hd == d);
}

/// When the body decoder rejects the characters after the header, no body
/// exists.
proof fn lemma_no_body(s: Seq<char>)
    requires
        s.len() >= 8,
        forall|b: Seq<u8>, k: int|
            #![trigger b64u_of(b), pad_seq(k)]
            0 <= k <= b64_pad_len(b.len() as int) ==> s.skip(8) != b64u_of(b) + pad_seq(k),
    ensures
        !body_decodes(s),
{
}

/// The body bytes the decoder returned are the ones `spec_body_bytes` names.
proof fn lemma_body_bytes_unique(s: Seq<char>, d: Seq<u8>)
    requires
        s.len() >= 8,
        exists|k: int|
            0 <= k <= b64_pad_len(d.len() as int) && s.skip(8) == b64u_of(d) + pad_seq(k),
        forall|b: Seq<u8>, k: int|
            #![trigger b64u_of(b), pad_seq(k)]
            0 <= k <= b64_pad_len(b.len() as int) && s.skip(8) == b64u_of(b) + pad_seq(k)
                ==> b == d,
    ensures
        body_decodes(s),
        spec_body_bytes(s) == d,
{
    let k0 = choose|k: int|
        0 <= k <= b64_pad_len(d.len() as int) && s.skip(8) == b64u_of(d) + pad_seq(k);
    assert(b64u_of(d) + pad_seq(k0) == s.skip(8));
    assert(body_decodes(s));
    let (content, k1): (Seq<u8>, int) = choose|content: Seq<u8>, k: int|
        #![trigger b64u_of(content), pad_seq(k)]
        0 <= k <= b64_pad_len(content.len() as int) && b64u_of(content) + pad_seq(k) == s.skip(
            8,
        );
    assert(content == d);
}

} // verus!
