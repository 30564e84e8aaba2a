//! ggml tensor types to raw values.
//!
//! Two types today: F32 (id 0) copies through; Q8_0 (id 8) is 34-byte
//! blocks of an f16 scale followed by 32 signed bytes, value =
//! f32(scale) * q. Anything else refuses by name. The numbers leave this
//! module exactly as the file stores them (f32 bit patterns; f16 scale
//! bit patterns with their signed bytes); turning them into `f32` values
//! is the float arithmetic that stays outside the verified core.

use vstd::prelude::*;

use crate::loader::container::{le_u16, le_u32};
use crate::loader::error::{ErrKind, LoaderError};
use crate::text::{dec, push_dec, push_str, text};

verus! {

pub const GGML_F32: u32 = 0;
pub const GGML_Q8_0: u32 = 8;

pub const Q8_0_BLOCK_VALUES: u64 = 32;
/// 2 bytes of f16 scale + 32 i8 values.
pub const Q8_0_BLOCK_BYTES: u64 = 34;

/// How many bytes a tensor of this type and element count occupies.
pub open spec fn spec_tensor_byte_len(type_id: u32, n_elems: u64, row_len: u64, name: Seq<char>) -> Result<
    u64,
    ErrKind,
> {
    if row_len == 0 || n_elems % row_len != 0 {
        Err(
            ErrKind::Structure {
                reason: "tensor \""@ + name + "\": "@ + dec(n_elems as nat) + " values cannot be rows of "@
                    + dec(row_len as nat),
            },
        )
    } else if type_id == GGML_F32 {
        if n_elems * 4 > u64::MAX {
            Err(ErrKind::Structure { reason: overflow_message(name) })
        } else {
            Ok((n_elems * 4) as u64)
        }
    } else if type_id == GGML_Q8_0 {
        if row_len % 32 != 0 {
            Err(
                ErrKind::Structure {
                    reason: "tensor \""@ + name + "\" has rows of "@ + dec(row_len as nat)
                        + " values, not a multiple of 32 (Q8_0 blocks never span rows)"@,
                },
            )
        } else if (n_elems / 32) * 34 > u64::MAX {
            Err(ErrKind::Structure { reason: overflow_message(name) })
        } else {
            Ok(((n_elems / 32) * 34) as u64)
        }
    } else {
        Err(ErrKind::UnsupportedTensorType { name, type_id })
    }
}

/// The refusal of a byte length past u64.
pub open spec fn overflow_message(name: Seq<char>) -> Seq<char> {
    "tensor \""@ + name + "\" byte length overflows"@
}

/// The refusal of a non-finite value.
pub open spec fn non_finite_message(name: Seq<char>) -> Seq<char> {
    "tensor \""@ + name + "\" holds a non-finite value (NaN or infinity)"@
}

/// How many bytes a tensor of this type and element count occupies.
/// `row_len` is the contiguous dimension (GGUF dims[0]): Q8_0 blocks live
/// inside rows and never span them, so each row must be a whole number
/// of 32-value blocks.
pub fn tensor_byte_len(type_id: u32, n_elems: u64, row_len: u64, name: &str) -> (r: Result<
    u64,
    LoaderError,
>)
    ensures
        match spec_tensor_byte_len(type_id, n_elems, row_len, name@) {
            Ok(n) => r == Ok::<u64, LoaderError>(n),
            Err(e) => r matches Err(x) && x@ == e,
        },
{
    if row_len == 0 || n_elems % row_len != 0 {
        let mut reason = text("tensor \"");
        push_str(&mut reason, name);
        push_str(&mut reason, "\": ");
        push_dec(&mut reason, n_elems);
        push_str(&mut reason, " values cannot be rows of ");
        push_dec(&mut reason, row_len);
        return Err(LoaderError::Structure { reason });
    }
    if type_id == GGML_F32 {
        match n_elems.checked_mul(4) {
            Some(n) => Ok(n),
            None => Err(overflow(name)),
        }
    } else if type_id == GGML_Q8_0 {
        if row_len % Q8_0_BLOCK_VALUES != 0 {
            let mut reason = text("tensor \"");
            push_str(&mut reason, name);
            push_str(&mut reason, "\" has rows of ");
            push_dec(&mut reason, row_len);
            push_str(
                &mut reason,
                " values, not a multiple of 32 (Q8_0 blocks never span rows)",
            );
            return Err(LoaderError::Structure { reason });
        }
        match (n_elems / Q8_0_BLOCK_VALUES).checked_mul(Q8_0_BLOCK_BYTES) {
            Some(n) => Ok(n),
            None => Err(overflow(name)),
        }
    } else {
        Err(LoaderError::UnsupportedTensorType { name: text(name), type_id })
    }
}

fn overflow(name: &str) -> (e: LoaderError)
    ensures
        e@ == (ErrKind::Structure { reason: overflow_message(name@) }),
{
    let mut reason = text("tensor \"");
    push_str(&mut reason, name);
    push_str(&mut reason, "\" byte length overflows");
    LoaderError::Structure { reason }
}

/// Whether ggml type `type_id` is a block-quantized format. The plain
/// numeric types (F32, F16, I8, I16, I32, I64, F64, BF16) are not.
pub open spec fn spec_is_quantized(type_id: u32) -> bool {
    !(type_id == 0 || type_id == 1 || (24 <= type_id <= 28) || type_id == 30)
}

/// Whether ggml type `type_id` is a block-quantized format; the loader asks
/// for `general.quantization_version` only when some tensor is.
pub fn is_quantized(type_id: u32) -> (r: bool)
    ensures
        r == spec_is_quantized(type_id),
{
    !(type_id == 0 || type_id == 1 || (24 <= type_id && type_id <= 28) || type_id == 30)
}

/// An f32 bit pattern names a finite number: its exponent is not all ones.
pub open spec fn f32_bits_finite(bits: u32) -> bool {
    (bits / 0x80_0000) % 256 != 255
}

/// An f16 bit pattern names a finite number: its exponent is not all ones.
pub open spec fn f16_bits_finite(bits: u16) -> bool {
    (bits / 0x400) % 32 != 31
}

/// A tensor's values as the file stores them.
pub ghost enum DecodedSpec {
    F32 { bits: Seq<u32> },
    Q8_0 { scales: Seq<u16>, quants: Seq<i8> },
}

/// A tensor's values as the file stores them: `F32` holds each value's
/// bit pattern; `Q8_0` holds one f16 scale bit pattern per 32 values and
/// the values' signed bytes, value `i` being `scale[i / 32] * quants[i]`.
#[derive(Debug, Clone)]
pub enum Decoded {
    F32 { bits: Vec<u32> },
    Q8_0 { scales: Vec<u16>, quants: Vec<i8> },
}

impl View for Decoded {
    type V = DecodedSpec;

    open spec fn view(&self) -> DecodedSpec {
        match self {
            Decoded::F32 { bits } => DecodedSpec::F32 { bits: bits@ },
            Decoded::Q8_0 { scales, quants } => DecodedSpec::Q8_0 {
                scales: scales@,
                quants: quants@,
            },
        }
    }
}

impl Decoded {
    /// Number of values.
    pub open spec fn spec_len(&self) -> nat {
        match self {
            Decoded::F32 { bits } => bits@.len(),
            Decoded::Q8_0 { scales, quants } => quants@.len(),
        }
    }

    /// Number of values.
    pub fn len(&self) -> (r: usize)
        ensures
            r == self.spec_len(),
    {
        match self {
            Decoded::F32 { bits } => bits.len(),
            Decoded::Q8_0 { scales, quants } => quants.len(),
        }
    }
}

/// The F32 values of `b`: one little-endian u32 per 4 bytes.
pub open spec fn f32_bits_of(b: Seq<u8>) -> Seq<u32> {
    Seq::new(b.len() / 4, |i: int| le_u32(b, 4 * i))
}

/// The Q8_0 scales of `b`: the first two bytes of each 34-byte block.
pub open spec fn q8_scales_of(b: Seq<u8>) -> Seq<u16> {
    Seq::new(b.len() / 34, |k: int| le_u16(b, 34 * k))
}

/// The Q8_0 signed bytes of `b`: the last 32 bytes of each block.
pub open spec fn q8_quants_of(b: Seq<u8>) -> Seq<i8> {
    Seq::new((b.len() / 34) * 32, |m: int| b[34 * (m / 32) + 2 + m % 32] as i8)
}

/// Decode a tensor's raw bytes.
pub open spec fn spec_dequantize(
    type_id: u32,
    b: Seq<u8>,
    n_elems: usize,
    row_len: u64,
    name: Seq<char>,
) -> Result<DecodedSpec, ErrKind> {
    match spec_tensor_byte_len(type_id, n_elems as u64, row_len, name) {
        Err(e) => Err(e),
        Ok(expected) => if b.len() != expected {
            Err(
                ErrKind::Structure {
                    reason: "tensor \""@ + name + "\": "@ + dec(b.len()) + " bytes on disk, type needs "@
                        + dec(expected as nat),
                },
            )
        } else if type_id == GGML_F32 {
            let bits = f32_bits_of(b);
            if exists|i: int| 0 <= i < bits.len() && !f32_bits_finite(#[trigger] bits[i]) {
                Err(ErrKind::Structure { reason: non_finite_message(name) })
            } else {
                Ok(DecodedSpec::F32 { bits })
            }
        } else {
            let scales = q8_scales_of(b);
            if exists|k: int| 0 <= k < scales.len() && !f16_bits_finite(#[trigger] scales[k]) {
                Err(ErrKind::Structure { reason: non_finite_message(name) })
            } else {
                Ok(DecodedSpec::Q8_0 { scales, quants: q8_quants_of(b) })
            }
        },
    }
}

fn non_finite(name: &str) -> (e: LoaderError)
    ensures
        e@ == (ErrKind::Structure { reason: non_finite_message(name@) }),
{
    let mut reason = text("tensor \"");
    push_str(&mut reason, name);
    push_str(&mut reason, "\" holds a non-finite value (NaN or infinity)");
    LoaderError::Structure { reason }
}

proof fn lemma_blocks_fill_rows(n: u64, row: u64)
    requires
        row != 0,
        n % row == 0,
        row % 32 == 0,
    ensures
        n % 32 == 0,
        (n / 32) * 34 / 34 * 32 == n,
{
    assert(n % 32 == 0) by (nonlinear_arith)
        requires
            row != 0,
            n % row == 0,
            row % 32 == 0,
    {
        vstd::arithmetic::div_mod::lemma_fundamental_div_mod(n as int, row as int);
        vstd::arithmetic::div_mod::lemma_fundamental_div_mod(row as int, 32);
        assert(n == row * (n / row));
        assert(row == 32 * (row / 32));
        assert(n == 32 * ((row / 32) * (n / row)));
        vstd::arithmetic::div_mod::lemma_mod_multiples_basic((row / 32) * (n / row), 32);
    }
}

/// Decode a tensor's raw bytes into the values the file stores, after
/// checking the byte count against the type and refusing NaN or
/// infinite values (an F32 value, or a Q8_0 block scale).
#[verifier::loop_isolation(false)]
pub fn dequantize(type_id: u32, bytes: &[u8], n_elems: usize, row_len: u64, name: &str) -> (r:
    Result<Decoded, LoaderError>)
    ensures
        match spec_dequantize(type_id, bytes@, n_elems, row_len, name@) {
            Ok(d) => r matches Ok(x) && x@ == d,
            Err(e) => r matches Err(x) && x@ == e,
        },
        r matches Ok(x) ==> x.spec_len() == n_elems,
{
    let expected = tensor_byte_len(type_id, n_elems as u64, row_len, name)?;
    if bytes.len() as u64 != expected {
        let mut reason = text("tensor \"");
        push_str(&mut reason, name);
        push_str(&mut reason, "\": ");
        push_dec(&mut reason, bytes.len() as u64);
        push_str(&mut reason, " bytes on disk, type needs ");
        push_dec(&mut reason, expected);
        return Err(LoaderError::Structure { reason });
    }
    if type_id == GGML_F32 {
        proof {
            assert(bytes@.len() == 4 * n_elems);
        }
        let ghost want = f32_bits_of(bytes@);
        let count = bytes.len() / 4;
        let mut bits: Vec<u32> = Vec::with_capacity(n_elems);
        let mut i: usize = 0;
        while i < count
            invariant
                count == bytes@.len() / 4,
                count * 4 == bytes@.len(),
                want == f32_bits_of(bytes@),
                i <= count,
                bits@ == want.take(i as int),
                forall|j: int| 0 <= j < i ==> f32_bits_finite(#[trigger] want[j]),
            decreases count - i,
        {
            let p = 4 * i;
            let v = bytes[p] as u32 + 256 * (bytes[p + 1] as u32 + 256 * (bytes[p + 2] as u32
                + 256 * bytes[p + 3] as u32));
            proof {
                assert(v == want[i as int]);
            }
            if (v / 0x80_0000) % 256 == 255 {
                proof {
                    assert(!f32_bits_finite(want[i as int]));
                }
                return Err(non_finite(name));
            }
            bits.push(v);
            proof {
                assert(bits@ =~= want.take(i + 1));
            }
            i = i + 1;
        }
        proof {
            assert(want.take(count as int) =~= want);
        }
        Ok(Decoded::F32 { bits })
    } else {
        proof {
            lemma_blocks_fill_rows(n_elems as u64, row_len);
        }
        let ghost want_s = q8_scales_of(bytes@);
        let ghost want_q = q8_quants_of(bytes@);
        let n_blocks = bytes.len() / 34;
        let mut scales: Vec<u16> = Vec::with_capacity(n_blocks);
        let mut quants: Vec<i8> = Vec::with_capacity(n_elems);
        let mut k: usize = 0;
        while k < n_blocks
            invariant
                n_blocks == bytes@.len() / 34,
                n_blocks * 34 == bytes@.len(),
                want_s == q8_scales_of(bytes@),
                want_q == q8_quants_of(bytes@),
                k <= n_blocks,
                scales@ == want_s.take(k as int),
                quants@ == want_q.take(32 * k),
                forall|j: int| 0 <= j < k ==> f16_bits_finite(#[trigger] want_s[j]),
            decreases n_blocks - k,
        {
            let p = 34 * k;
            let s = bytes[p] as u16 + 256 * bytes[p + 1] as u16;
            proof {
                assert(s == want_s[k as int]);
            }
            if (s / 0x400) % 32 == 31 {
                proof {
                    assert(!f16_bits_finite(want_s[k as int]));
                }
                return Err(non_finite(name));
            }
            scales.push(s);
            let mut j: usize = 0;
            while j < 32
                invariant
                    n_blocks * 34 == bytes@.len(),
                    want_q == q8_quants_of(bytes@),
                    k < n_blocks,
                    p == 34 * k,
                    j <= 32,
                    quants@ == want_q.take(32 * k + j),
                decreases 32 - j,
            {
                let q = #[verifier::truncate] (bytes[p + 2 + j] as i8);
                proof {
                    let m = 32 * k + j;
                    assert(m / 32 == k && m % 32 == j) by (nonlinear_arith)
                        requires
                            m == 32 * k + j,
                            0 <= j < 32,
                    ;
                    assert(q == want_q[m]);
                }
                quants.push(q);
                proof {
                    assert(quants@ =~= want_q.take(32 * k + j + 1));
                }
                j = j + 1;
            }
            proof {
                assert(scales@ =~= want_s.take(k + 1));
            }
            k = k + 1;
        }
        proof {
            assert(want_s.take(n_blocks as int) =~= want_s);
            assert(want_q.take(32 * n_blocks) =~= want_q);
        }
        Ok(Decoded::Q8_0 { scales, quants })
    }
}

fn copy_vec<T: Copy>(v: &Vec<T>) -> (r: Vec<T>)
    ensures
        r@ == v@,
{
    let mut r: Vec<T> = Vec::with_capacity(v.len());
    let mut i: usize = 0;
    while i < v.len()
        invariant
            i <= v@.len(),
            r@ == v@.take(i as int),
        decreases v.len() - i,
    {
        r.push(v[i]);
        proof {
            assert(v@.take(i + 1) =~= v@.take(i as int).push(v@[i as int]));
        }
        i = i + 1;
    }
    proof {
        assert(v@.take(v@.len() as int) =~= v@);
    }
    r
}

impl Decoded {
    /// A copy of these values.
    pub fn duplicate(&self) -> (r: Decoded)
        ensures
            r@ == self@,
    {
        match self {
            Decoded::F32 { bits } => Decoded::F32 { bits: copy_vec(bits) },
            Decoded::Q8_0 { scales, quants } => Decoded::Q8_0 {
                scales: copy_vec(scales),
                quants: copy_vec(quants),
            },
        }
    }
}

/// How many values a decoded tensor holds.
pub open spec fn decoded_len(d: DecodedSpec) -> nat {
    match d {
        DecodedSpec::F32 { bits } => bits.len(),
        DecodedSpec::Q8_0 { scales, quants } => quants.len(),
    }
}

/// A decoded tensor holds exactly the element count it was asked for.
pub proof fn lemma_dequantize_len(type_id: u32, b: Seq<u8>, n_elems: usize, row_len: u64, name: Seq<char>)
    requires
        spec_dequantize(type_id, b, n_elems, row_len, name) is Ok,
    ensures
        decoded_len(spec_dequantize(type_id, b, n_elems, row_len, name)->Ok_0) == n_elems,
{
    if type_id != GGML_F32 {
        lemma_blocks_fill_rows(n_elems as u64, row_len);
    }
}

} // verus!
