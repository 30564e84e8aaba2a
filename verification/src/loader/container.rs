//! The GGUF container parser, byte by byte.
//!
//! Everything little-endian. Layout: magic "GGUF", version (must be 3),
//! tensor count, metadata count, the metadata key-values, the tensor
//! infos, zero-padding to the alignment, then tensor data. This file
//! knows bytes and structure only; what the values mean is config.rs and
//! yamf.rs.
//!
//! The grammar is written out as spec functions (`spec_*`) that thread a
//! byte position through the file; every executable reader is proved to
//! agree with its spec, refusals included.

use vstd::prelude::*;
use vstd::string::*;
use vstd::utf8::*;

use crate::loader::error::{ErrKind, LoaderError};
use crate::text::{dec, push_dec, push_str, str_eq, text, utf8_string};

verus! {

/// Sanity caps, so a lying header cannot make the parser allocate
/// absurdly before the bounds checks catch it.
pub const MAX_TENSORS: u64 = 1_000_000;
pub const MAX_METADATA_KVS: u64 = 100_000;
pub const MAX_TENSOR_NAME_BYTES: u64 = 64;
pub const MAX_TENSOR_DIMS: u32 = 4;
pub const MAX_ARRAY_NESTING: u32 = 8;
/// Largest legitimate arrays are the vocab and the merges.
pub const MAX_ARRAY_ELEMS: u64 = 10_000_000;
/// No legitimate metadata string approaches this.
pub const MAX_STRING_VALUE_BYTES: u64 = 10_000_000;
/// The spec's bound on a metadata key.
pub const MAX_KEY_BYTES: u64 = 65_535;

// ---------------------------------------------------------------- model

/// One metadata value, spec type ids 0..=12. Floats are kept as their
/// IEEE-754 bit patterns, exactly as the file stores them.
pub ghost enum MetaSpec {
    U8(u8),
    I8(i8),
    U16(u16),
    I16(i16),
    U32(u32),
    I32(i32),
    F32(u32),
    Bool(bool),
    Str(Seq<char>),
    Array { elem_type_id: u32, items: Seq<MetaSpec> },
    U64(u64),
    I64(i64),
    F64(u64),
}

/// One metadata value, spec type ids 0..=12. `F32` and `F64` carry the
/// value's bit pattern (`f32::from_bits` / `f64::from_bits` give the
/// number); nothing is rounded on the way through.
#[derive(Debug, PartialEq)]
pub enum MetaValue {
    U8(u8),
    I8(i8),
    U16(u16),
    I16(i16),
    U32(u32),
    I32(i32),
    F32(u32),
    Bool(bool),
    Str(String),
    /// The declared element type id survives even when the array is
    /// empty, so typed consumers can validate it.
    Array { elem_type_id: u32, items: Vec<MetaValue> },
    U64(u64),
    I64(i64),
    F64(u64),
}

pub open spec fn meta_model(v: &MetaValue) -> MetaSpec
    decreases v,
{
    match v {
        MetaValue::U8(x) => MetaSpec::U8(*x),
        MetaValue::I8(x) => MetaSpec::I8(*x),
        MetaValue::U16(x) => MetaSpec::U16(*x),
        MetaValue::I16(x) => MetaSpec::I16(*x),
        MetaValue::U32(x) => MetaSpec::U32(*x),
        MetaValue::I32(x) => MetaSpec::I32(*x),
        MetaValue::F32(x) => MetaSpec::F32(*x),
        MetaValue::Bool(x) => MetaSpec::Bool(*x),
        MetaValue::Str(s) => MetaSpec::Str(s@),
        MetaValue::Array { elem_type_id, items } => MetaSpec::Array {
            elem_type_id: *elem_type_id,
            items: meta_models(items@),
        },
        MetaValue::U64(x) => MetaSpec::U64(*x),
        MetaValue::I64(x) => MetaSpec::I64(*x),
        MetaValue::F64(x) => MetaSpec::F64(*x),
    }
}

pub open spec fn meta_models(s: Seq<MetaValue>) -> Seq<MetaSpec>
    decreases s,
{
    if s.len() == 0 {
        Seq::empty()
    } else {
        meta_models(s.drop_last()).push(meta_model(&s.last()))
    }
}

/// The models of a sequence of values keep its length and order.
pub proof fn lemma_meta_models(s: Seq<MetaValue>)
    ensures
        meta_models(s).len() == s.len(),
        forall|i: int| 0 <= i < s.len() ==> #[trigger] meta_models(s)[i] == meta_model(&s[i]),
    decreases s.len(),
{
    if s.len() > 0 {
        lemma_meta_models(s.drop_last());
        assert forall|i: int| 0 <= i < s.len() implies #[trigger] meta_models(s)[i] == meta_model(
            &s[i],
        ) by {
            if i < s.len() - 1 {
                assert(s.drop_last()[i] == s[i]);
            }
        }
    }
}

impl View for MetaValue {
    type V = MetaSpec;

    open spec fn view(&self) -> MetaSpec {
        meta_model(self)
    }
}

/// The type's name for error messages.
pub open spec fn kind_name(m: MetaSpec) -> Seq<char> {
    match m {
        MetaSpec::U8(_) => "u8"@,
        MetaSpec::I8(_) => "i8"@,
        MetaSpec::U16(_) => "u16"@,
        MetaSpec::I16(_) => "i16"@,
        MetaSpec::U32(_) => "u32"@,
        MetaSpec::I32(_) => "i32"@,
        MetaSpec::F32(_) => "f32"@,
        MetaSpec::Bool(_) => "bool"@,
        MetaSpec::Str(_) => "string"@,
        MetaSpec::Array { .. } => "array"@,
        MetaSpec::U64(_) => "u64"@,
        MetaSpec::I64(_) => "i64"@,
        MetaSpec::F64(_) => "f64"@,
    }
}

impl MetaValue {
    /// The type's name for error messages.
    pub fn kind(&self) -> (r: &'static str)
        ensures
            r@ == kind_name(self@),
    {
        match self {
            MetaValue::U8(_) => "u8",
            MetaValue::I8(_) => "i8",
            MetaValue::U16(_) => "u16",
            MetaValue::I16(_) => "i16",
            MetaValue::U32(_) => "u32",
            MetaValue::I32(_) => "i32",
            MetaValue::F32(_) => "f32",
            MetaValue::Bool(_) => "bool",
            MetaValue::Str(_) => "string",
            MetaValue::Array { .. } => "array",
            MetaValue::U64(_) => "u64",
            MetaValue::I64(_) => "i64",
            MetaValue::F64(_) => "f64",
        }
    }
}

/// One tensor's directory entry, as the file states it.
pub ghost struct TensorSpec {
    pub name: Seq<char>,
    pub dims: Seq<u64>,
    pub type_id: u32,
    pub offset: u64,
}

/// One tensor's directory entry. `dims` stays in the file's ne order
/// (dims[0] = contiguous row length, reversed against row-major shapes);
/// yamf.rs does the reversal, so the trap has one home.
#[derive(Debug, Clone, PartialEq)]
pub struct TensorInfo {
    pub name: String,
    pub dims: Vec<u64>,
    pub type_id: u32,
    pub offset: u64,
}

impl View for TensorInfo {
    type V = TensorSpec;

    open spec fn view(&self) -> TensorSpec {
        TensorSpec {
            name: self.name@,
            dims: self.dims@,
            type_id: self.type_id,
            offset: self.offset,
        }
    }
}

/// The metadata key-values in file order.
pub type KvSpec = Seq<(Seq<char>, MetaSpec)>;

pub open spec fn kv_keys(kvs: KvSpec) -> Seq<Seq<char>> {
    kvs.map_values(|kv: (Seq<char>, MetaSpec)| kv.0)
}

/// The value under `key`: the first entry that carries it.
pub open spec fn lookup(kvs: KvSpec, key: Seq<char>) -> Option<MetaSpec>
    decreases kvs.len(),
{
    if kvs.len() == 0 {
        None
    } else if kvs[0].0 == key {
        Some(kvs[0].1)
    } else {
        lookup(kvs.drop_first(), key)
    }
}

/// No key occurs twice.
pub open spec fn keys_unique(kvs: KvSpec) -> bool {
    forall|i: int, j: int| 0 <= i < j < kvs.len() ==> kvs[i].0 != kvs[j].0
}

/// The metadata of a file: key-value pairs, no key twice. Lookups by
/// key; the order of the file is kept.
#[derive(Debug)]
pub struct Metadata {
    entries: Vec<(String, MetaValue)>,
}

impl View for Metadata {
    type V = KvSpec;

    closed spec fn view(&self) -> KvSpec {
        Seq::new(
            self.entries@.len(),
            |i: int| (self.entries@[i].0@, self.entries@[i].1@),
        )
    }
}

impl Metadata {
    /// An empty table.
    pub fn new() -> (r: Metadata)
        ensures
            r@ == KvSpec::empty(),
    {
        let r = Metadata { entries: Vec::new() };
        proof {
            assert(r@ =~= KvSpec::empty());
        }
        r
    }

    /// Number of keys.
    pub fn len(&self) -> (r: usize)
        ensures
            r == self@.len(),
    {
        self.entries.len()
    }

    /// Whether the table is empty.
    pub fn is_empty(&self) -> (r: bool)
        ensures
            r == (self@.len() == 0),
    {
        self.entries.len() == 0
    }

    /// The position of `key`, when present.
    fn position(&self, key: &str) -> (r: Option<usize>)
        ensures
            r is None ==> !kv_keys(self@).contains(key@) && lookup(self@, key@) is None,
            r matches Some(i) ==> i < self@.len() && self@[i as int].0 == key@ && lookup(
                self@,
                key@,
            ) == Some(self@[i as int].1) && forall|j: int| 0 <= j < i ==> self@[j].0 != key@,
    {
        let mut i: usize = 0;
        while i < self.entries.len()
            invariant
                i <= self.entries@.len(),
                forall|j: int| 0 <= j < i ==> self@[j].0 != key@,
            decreases self.entries.len() - i,
        {
            if str_eq(self.entries[i].0.as_str(), key) {
                proof {
                    lemma_lookup_first(self@, key@, i as int);
                }
                return Some(i);
            }
            i = i + 1;
        }
        proof {
            lemma_lookup_absent(self@, key@);
            if kv_keys(self@).contains(key@) {
                let j = choose|j: int| 0 <= j < kv_keys(self@).len() && kv_keys(self@)[j] == key@;
                assert(self@[j].0 == key@);
            }
        }
        None
    }

    /// Whether `key` is present.
    pub fn contains_key(&self, key: &str) -> (r: bool)
        ensures
            r == kv_keys(self@).contains(key@),
            r == (lookup(self@, key@) is Some),
    {
        match self.position(key) {
            Some(i) => {
                proof {
                    assert(kv_keys(self@)[i as int] == key@);
                }
                true
            },
            None => false,
        }
    }

    /// The value under `key`.
    pub fn get(&self, key: &str) -> (r: Option<&MetaValue>)
        ensures
            r matches Some(v) ==> lookup(self@, key@) == Some(v@),
            r is None ==> lookup(self@, key@) is None,
    {
        match self.position(key) {
            Some(i) => Some(&self.entries[i].1),
            None => None,
        }
    }

    /// Take the value under `key` out of the table; every other entry
    /// stays, in order.
    pub fn remove(&mut self, key: &str) -> (r: Option<MetaValue>)
        ensures
            r matches Some(v) ==> lookup(old(self)@, key@) == Some(v@) && exists|i: int|
                0 <= i < old(self)@.len() && old(self)@[i].0 == key@ && final(self)@ == old(
                    self,
                )@.remove(i),
            r is None ==> lookup(old(self)@, key@) is None && final(self)@ == old(self)@,
    {
        match self.position(key) {
            Some(i) => {
                let ghost before = self@;
                let (_, v) = self.entries.remove(i);
                proof {
                    assert(self@ =~= before.remove(i as int));
                }
                Some(v)
            },
            None => None,
        }
    }

    /// Add a key that is not present yet.
    fn push_new(&mut self, key: String, value: MetaValue)
        ensures
            final(self)@ == old(self)@.push((key@, value@)),
    {
        let ghost before = self@;
        self.entries.push((key, value));
        proof {
            assert(self@ =~= before.push((key@, value@)));
        }
    }
}

proof fn lemma_lookup_first(kvs: KvSpec, key: Seq<char>, i: int)
    requires
        0 <= i < kvs.len(),
        kvs[i].0 == key,
        forall|j: int| 0 <= j < i ==> kvs[j].0 != key,
    ensures
        lookup(kvs, key) == Some(kvs[i].1),
    decreases i,
{
    if i > 0 {
        lemma_lookup_first(kvs.drop_first(), key, i - 1);
    }
}

proof fn lemma_lookup_absent(kvs: KvSpec, key: Seq<char>)
    requires
        forall|j: int| 0 <= j < kvs.len() ==> kvs[j].0 != key,
    ensures
        lookup(kvs, key) is None,
    decreases kvs.len(),
{
    if kvs.len() > 0 {
        lemma_lookup_absent(kvs.drop_first(), key);
    }
}

/// The parsed container: everything before the tensor data, plus where
/// that data starts.
#[derive(Debug)]
pub struct Container {
    pub metadata: Metadata,
    pub tensors: Vec<TensorInfo>,
    pub alignment: u64,
    pub data_start: usize,
    pub file_len: usize,
}

pub ghost struct ContainerSpec {
    pub metadata: KvSpec,
    pub tensors: Seq<TensorSpec>,
    pub alignment: u64,
    pub data_start: int,
    pub file_len: int,
}

impl View for Container {
    type V = ContainerSpec;

    open spec fn view(&self) -> ContainerSpec {
        ContainerSpec {
            metadata: self.metadata@,
            tensors: self.tensors@.map_values(|t: TensorInfo| t@),
            alignment: self.alignment,
            data_start: self.data_start as int,
            file_len: self.file_len as int,
        }
    }
}

// -------------------------------------------------------------- grammar

/// Little-endian numbers at position `p`.
pub open spec fn le_u16(b: Seq<u8>, p: int) -> u16 {
    (b[p] + 256 * b[p + 1]) as u16
}

pub open spec fn le_u32(b: Seq<u8>, p: int) -> u32 {
    (b[p] + 256 * (b[p + 1] + 256 * (b[p + 2] + 256 * b[p + 3]))) as u32
}

pub open spec fn le_u64(b: Seq<u8>, p: int) -> u64 {
    (b[p] + 256 * (b[p + 1] + 256 * (b[p + 2] + 256 * (b[p + 3] + 256 * (b[p + 4] + 256 * (b[p
        + 5] + 256 * (b[p + 6] + 256 * b[p + 7]))))))) as u64
}

/// Claim `n` bytes at `p`: the position after them, or the refusal.
pub open spec fn spec_take(len: int, p: int, n: int, what: Seq<char>) -> Result<int, ErrKind> {
    if p + n > usize::MAX {
        Err(ErrKind::Structure { reason: "length overflow reading "@ + what })
    } else if p + n > len {
        Err(ErrKind::Truncated { reading: what, at: p })
    } else {
        Ok(p + n)
    }
}

pub open spec fn spec_u8(b: Seq<u8>, p: int, what: Seq<char>) -> Result<(u8, int), ErrKind> {
    match spec_take(b.len() as int, p, 1, what) {
        Ok(q) => Ok((b[p], q)),
        Err(e) => Err(e),
    }
}

pub open spec fn spec_u16(b: Seq<u8>, p: int, what: Seq<char>) -> Result<(u16, int), ErrKind> {
    match spec_take(b.len() as int, p, 2, what) {
        Ok(q) => Ok((le_u16(b, p), q)),
        Err(e) => Err(e),
    }
}

pub open spec fn spec_u32(b: Seq<u8>, p: int, what: Seq<char>) -> Result<(u32, int), ErrKind> {
    match spec_take(b.len() as int, p, 4, what) {
        Ok(q) => Ok((le_u32(b, p), q)),
        Err(e) => Err(e),
    }
}

pub open spec fn spec_u64(b: Seq<u8>, p: int, what: Seq<char>) -> Result<(u64, int), ErrKind> {
    match spec_take(b.len() as int, p, 8, what) {
        Ok(q) => Ok((le_u64(b, p), q)),
        Err(e) => Err(e),
    }
}

/// A u64 length, at most `max`, then that many bytes of UTF-8.
pub open spec fn spec_string_capped(b: Seq<u8>, p: int, max: int, what: Seq<char>) -> Result<
    (Seq<char>, int),
    ErrKind,
> {
    match spec_u64(b, p, what) {
        Err(e) => Err(e),
        Ok((len, q)) => if len > usize::MAX {
            Err(
                ErrKind::Structure {
                    reason: "string length "@ + dec(len as nat) + " overflows usize ("@ + what + ")"@,
                },
            )
        } else if len > max {
            Err(
                ErrKind::Structure {
                    reason: what + " of "@ + dec(len as nat) + " bytes exceeds the spec's "@ + dec(
                        max as nat,
                    ),
                },
            )
        } else {
            match spec_take(b.len() as int, q, len as int, what) {
                Err(e) => Err(e),
                Ok(r) => if valid_utf8(b.subrange(q, r)) {
                    Ok((decode_utf8(b.subrange(q, r)), r))
                } else {
                    Err(ErrKind::Structure { reason: "invalid UTF-8 in "@ + what })
                },
            }
        },
    }
}

/// The fewest bytes one encoded value of this type can occupy.
pub open spec fn spec_min_encoded_size(type_id: u32) -> u64 {
    if type_id == 0 || type_id == 1 || type_id == 7 {
        1
    } else if type_id == 2 || type_id == 3 {
        2
    } else if 4 <= type_id <= 6 {
        4
    } else if type_id == 8 {
        8
    } else if type_id == 9 {
        12
    } else {
        8
    }
}

/// One metadata value of type `t` at `p`, nested `depth` arrays deep.
pub open spec fn spec_read_value(b: Seq<u8>, p: int, t: u32, key: Seq<char>, depth: int) -> Result<
    (MetaSpec, int),
    ErrKind,
>
    decreases 10 - depth, 0int,
{
    if depth > MAX_ARRAY_NESTING {
        Err(
            ErrKind::Structure {
                reason: "metadata key \""@ + key + "\" nests arrays deeper than 8"@,
            },
        )
    } else if t == 0 {
        match spec_u8(b, p, "a u8 value"@) {
            Ok((v, q)) => Ok((MetaSpec::U8(v), q)),
            Err(e) => Err(e),
        }
    } else if t == 1 {
        match spec_u8(b, p, "an i8 value"@) {
            Ok((v, q)) => Ok((MetaSpec::I8(v as i8), q)),
            Err(e) => Err(e),
        }
    } else if t == 2 {
        match spec_u16(b, p, "a u16 value"@) {
            Ok((v, q)) => Ok((MetaSpec::U16(v), q)),
            Err(e) => Err(e),
        }
    } else if t == 3 {
        match spec_u16(b, p, "an i16 value"@) {
            Ok((v, q)) => Ok((MetaSpec::I16(v as i16), q)),
            Err(e) => Err(e),
        }
    } else if t == 4 {
        match spec_u32(b, p, "a u32 value"@) {
            Ok((v, q)) => Ok((MetaSpec::U32(v), q)),
            Err(e) => Err(e),
        }
    } else if t == 5 {
        match spec_u32(b, p, "an i32 value"@) {
            Ok((v, q)) => Ok((MetaSpec::I32(v as i32), q)),
            Err(e) => Err(e),
        }
    } else if t == 6 {
        match spec_u32(b, p, "an f32 value"@) {
            Ok((v, q)) => Ok((MetaSpec::F32(v), q)),
            Err(e) => Err(e),
        }
    } else if t == 7 {
        match spec_u8(b, p, "a bool value"@) {
            Ok((v, q)) => if v == 0 {
                Ok((MetaSpec::Bool(false), q))
            } else if v == 1 {
                Ok((MetaSpec::Bool(true), q))
            } else {
                Err(
                    ErrKind::Structure {
                        reason: "bool byte for key \""@ + key + "\" is "@ + dec(v as nat)
                            + ", must be 0 or 1"@,
                    },
                )
            },
            Err(e) => Err(e),
        }
    } else if t == 8 {
        match spec_string_capped(b, p, MAX_STRING_VALUE_BYTES as int, "a string value"@) {
            Ok((s, q)) => Ok((MetaSpec::Str(s), q)),
            Err(e) => Err(e),
        }
    } else if t == 9 {
        match spec_u32(b, p, "an array's element type"@) {
            Err(e) => Err(e),
            Ok((et, q)) => if et > 12 {
                Err(ErrKind::UnknownMetaType { key, type_id: et })
            } else {
                match spec_u64(b, q, "an array's element count"@) {
                    Err(e) => Err(e),
                    Ok((count, r)) => if count > MAX_ARRAY_ELEMS {
                        Err(
                            ErrKind::Structure {
                                reason: "array under key \""@ + key + "\" claims "@ + dec(count as nat)
                                    + " elements, above the 10000000 cap"@,
                            },
                        )
                    } else if count > (b.len() - r) / (spec_min_encoded_size(et) as int) {
                        Err(
                            ErrKind::Structure {
                                reason: "array under key \""@ + key + "\" claims "@ + dec(count as nat)
                                    + " elements, file cannot hold them"@,
                            },
                        )
                    } else {
                        match spec_read_items(b, r, et, key, depth + 1, count as int, Seq::empty()) {
                            Err(e) => Err(e),
                            Ok((items, s)) => Ok((MetaSpec::Array { elem_type_id: et, items }, s)),
                        }
                    },
                }
            },
        }
    } else if t == 10 {
        match spec_u64(b, p, "a u64 value"@) {
            Ok((v, q)) => Ok((MetaSpec::U64(v), q)),
            Err(e) => Err(e),
        }
    } else if t == 11 {
        match spec_u64(b, p, "an i64 value"@) {
            Ok((v, q)) => Ok((MetaSpec::I64(v as i64), q)),
            Err(e) => Err(e),
        }
    } else if t == 12 {
        match spec_u64(b, p, "an f64 value"@) {
            Ok((v, q)) => Ok((MetaSpec::F64(v), q)),
            Err(e) => Err(e),
        }
    } else {
        Err(ErrKind::UnknownMetaType { key, type_id: t })
    }
}

/// `n` more array items of type `t` at `p`, after the `acc` already read.
pub open spec fn spec_read_items(
    b: Seq<u8>,
    p: int,
    t: u32,
    key: Seq<char>,
    depth: int,
    n: int,
    acc: Seq<MetaSpec>,
) -> Result<(Seq<MetaSpec>, int), ErrKind>
    decreases 10 - depth, n + 1,
{
    if n <= 0 {
        Ok((acc, p))
    } else {
        match spec_read_value(b, p, t, key, depth) {
            Err(e) => Err(e),
            Ok((v, q)) => spec_read_items(b, q, t, key, depth, n - 1, acc.push(v)),
        }
    }
}

/// One key-value pair at `p`; `acc` holds the pairs read before it.
pub open spec fn spec_kv(b: Seq<u8>, p: int, acc: KvSpec) -> Result<
    ((Seq<char>, MetaSpec), int),
    ErrKind,
> {
    match spec_string_capped(b, p, MAX_KEY_BYTES as int, "a metadata key"@) {
        Err(e) => Err(e),
        Ok((key, q)) => if !is_ascii_chars(key) {
            Err(
                ErrKind::Structure {
                    reason: "metadata key \""@ + key + "\" is not ASCII (the spec requires it)"@,
                },
            )
        } else if kv_keys(acc).contains(key) {
            Err(ErrKind::Structure { reason: "duplicate metadata key \""@ + key + "\""@ })
        } else {
            match spec_u32(b, q, "a metadata value type"@) {
                Err(e) => Err(e),
                Ok((t, r)) => match spec_read_value(b, r, t, key, 0) {
                    Err(e) => Err(e),
                    Ok((v, s)) => Ok(((key, v), s)),
                },
            }
        },
    }
}

/// `n` more key-value pairs at `p`, after the `acc` already read.
pub open spec fn spec_read_kvs(b: Seq<u8>, p: int, n: int, acc: KvSpec) -> Result<
    (KvSpec, int),
    ErrKind,
>
    decreases n,
{
    if n <= 0 {
        Ok((acc, p))
    } else {
        match spec_kv(b, p, acc) {
            Err(e) => Err(e),
            Ok((kv, q)) => spec_read_kvs(b, q, n - 1, acc.push(kv)),
        }
    }
}

/// The declared alignment: default 32, a `u32` under
/// `general.alignment`, and always a positive multiple of 8.
pub open spec fn spec_alignment(kvs: KvSpec) -> Result<u64, ErrKind> {
    let a = match lookup(kvs, "general.alignment"@) {
        None => Ok(32u64),
        Some(MetaSpec::U32(a)) => Ok(a as u64),
        Some(other) => Err(
            ErrKind::WrongType {
                key: "general.alignment"@,
                want: "u32"@,
                found: kind_name(other),
            },
        ),
    };
    match a {
        Err(e) => Err(e),
        Ok(a) => if a == 0 || a % 8 != 0 {
            Err(
                ErrKind::Structure {
                    reason: "alignment "@ + dec(a as nat) + " is not a positive multiple of 8"@,
                },
            )
        } else {
            Ok(a)
        },
    }
}

/// `n` more nonzero dimensions at `p`.
pub open spec fn spec_read_dims(b: Seq<u8>, p: int, n: int, acc: Seq<u64>, name: Seq<char>) -> Result<
    (Seq<u64>, int),
    ErrKind,
>
    decreases n,
{
    if n <= 0 {
        Ok((acc, p))
    } else {
        match spec_u64(b, p, "a tensor dimension"@) {
            Err(e) => Err(e),
            Ok((d, q)) => if d == 0 {
                Err(ErrKind::Structure { reason: "tensor \""@ + name + "\" has a zero dimension"@ })
            } else {
                spec_read_dims(b, q, n - 1, acc.push(d), name)
            },
        }
    }
}

pub open spec fn tensor_names(ts: Seq<TensorSpec>) -> Seq<Seq<char>> {
    ts.map_values(|t: TensorSpec| t.name)
}

/// One tensor info at `p`; `acc` holds the infos read before it.
pub open spec fn spec_tensor_info(b: Seq<u8>, p: int, align: u64, acc: Seq<TensorSpec>) -> Result<
    (TensorSpec, int),
    ErrKind,
> {
    match spec_string_capped(b, p, MAX_TENSOR_NAME_BYTES as int, "a tensor name"@) {
        Err(e) => Err(e),
        Ok((name, q)) => if tensor_names(acc).contains(name) {
            Err(ErrKind::Structure { reason: "duplicate tensor \""@ + name + "\""@ })
        } else {
            match spec_u32(b, q, "a tensor's dimension count"@) {
                Err(e) => Err(e),
                Ok((nd, r)) => if nd == 0 || nd > MAX_TENSOR_DIMS {
                    Err(
                        ErrKind::Structure {
                            reason: "tensor \""@ + name + "\" has "@ + dec(nd as nat)
                                + " dims; the spec allows 1 to 4"@,
                        },
                    )
                } else {
                    match spec_read_dims(b, r, nd as int, Seq::empty(), name) {
                        Err(e) => Err(e),
                        Ok((dims, s)) => match spec_u32(b, s, "a tensor's ggml type"@) {
                            Err(e) => Err(e),
                            Ok((t, u)) => match spec_u64(b, u, "a tensor's data offset"@) {
                                Err(e) => Err(e),
                                Ok((off, w)) => if off % align != 0 {
                                    Err(
                                        ErrKind::Structure {
                                            reason: "tensor \""@ + name + "\" offset "@ + dec(
                                                off as nat,
                                            ) + " is not aligned to "@ + dec(align as nat),
                                        },
                                    )
                                } else {
                                    Ok((TensorSpec { name, dims, type_id: t, offset: off }, w))
                                },
                            },
                        },
                    }
                },
            }
        },
    }
}

/// `n` more tensor infos at `p`, after the `acc` already read.
pub open spec fn spec_read_tensors(
    b: Seq<u8>,
    p: int,
    n: int,
    align: u64,
    acc: Seq<TensorSpec>,
) -> Result<(Seq<TensorSpec>, int), ErrKind>
    decreases n,
{
    if n <= 0 {
        Ok((acc, p))
    } else {
        match spec_tensor_info(b, p, align, acc) {
            Err(e) => Err(e),
            Ok((t, q)) => spec_read_tensors(b, q, n - 1, align, acc.push(t)),
        }
    }
}

/// The magic bytes "GGUF".
pub open spec fn gguf_magic() -> Seq<u8> {
    seq![0x47u8, 0x47u8, 0x55u8, 0x46u8]
}

pub open spec fn all_zero(s: Seq<u8>) -> bool {
    forall|i: int| 0 <= i < s.len() ==> s[i] == 0
}

/// Zero-padding from `p` up to the next multiple of `align`: the start of
/// the tensor data, or the refusal.
pub open spec fn spec_data_start(b: Seq<u8>, p: int, align: int) -> Result<int, ErrKind> {
    let rem = p % align;
    let pad = if rem == 0 {
        0
    } else {
        align - rem
    };
    if p + pad > usize::MAX {
        Err(ErrKind::Structure { reason: "padding overflows the file position"@ })
    } else if p + pad > b.len() {
        Err(ErrKind::Truncated { reading: "the padding before tensor data"@, at: p })
    } else if !all_zero(b.subrange(p, p + pad)) {
        Err(ErrKind::Structure { reason: "padding before tensor data is not zeroed"@ })
    } else {
        Ok(p + pad)
    }
}

/// The whole container grammar.
pub open spec fn spec_parse(b: Seq<u8>) -> Result<ContainerSpec, ErrKind> {
    match spec_take(b.len() as int, 0, 4, "the magic bytes"@) {
        Err(e) => Err(e),
        Ok(_) => if b.take(4) != gguf_magic() {
            Err(ErrKind::NotGguf { found: b.take(4) })
        } else {
            match spec_u32(b, 4, "the version field"@) {
                Err(e) => Err(e),
                Ok((version, p1)) => if version != 3 {
                    Err(ErrKind::UnsupportedVersion { found: version })
                } else {
                    match spec_u64(b, p1, "the tensor count"@) {
                        Err(e) => Err(e),
                        Ok((n_tensors, p2)) => if n_tensors > MAX_TENSORS {
                            Err(
                                ErrKind::Structure {
                                    reason: "tensor count "@ + dec(n_tensors as nat)
                                        + " exceeds the sanity cap 1000000"@,
                                },
                            )
                        } else {
                            match spec_u64(b, p2, "the metadata count"@) {
                                Err(e) => Err(e),
                                Ok((n_kvs, p3)) => if n_kvs > MAX_METADATA_KVS {
                                    Err(
                                        ErrKind::Structure {
                                            reason: "metadata count "@ + dec(n_kvs as nat)
                                                + " exceeds the sanity cap 100000"@,
                                        },
                                    )
                                } else {
                                    spec_parse_body(b, p3, n_tensors as int, n_kvs as int)
                                },
                            }
                        },
                    }
                },
            }
        },
    }
}

/// Everything after the counts: key-values, alignment, tensor infos,
/// padding.
pub open spec fn spec_parse_body(b: Seq<u8>, p: int, n_tensors: int, n_kvs: int) -> Result<
    ContainerSpec,
    ErrKind,
> {
    match spec_read_kvs(b, p, n_kvs, KvSpec::empty()) {
        Err(e) => Err(e),
        Ok((kvs, q)) => match spec_alignment(kvs) {
            Err(e) => Err(e),
            Ok(align) => match spec_read_tensors(b, q, n_tensors, align, Seq::empty()) {
                Err(e) => Err(e),
                Ok((tensors, r)) => match spec_data_start(b, r, align as int) {
                    Err(e) => Err(e),
                    Ok(start) => Ok(
                        ContainerSpec {
                            metadata: kvs,
                            tensors,
                            alignment: align,
                            data_start: start,
                            file_len: b.len() as int,
                        },
                    ),
                },
            },
        },
    }
}

/// What every parsed container satisfies.
pub open spec fn container_wf(c: ContainerSpec) -> bool {
    &&& c.alignment > 0
    &&& c.alignment % 8 == 0
    &&& c.data_start % (c.alignment as int) == 0
    &&& c.data_start <= c.file_len
    &&& keys_unique(c.metadata)
    &&& forall|i: int| 0 <= i < c.metadata.len() ==> is_ascii_chars(#[trigger] c.metadata[i].0)
    &&& forall|i: int, j: int|
        0 <= i < j < c.tensors.len() ==> c.tensors[i].name != c.tensors[j].name
    &&& forall|i: int|
        0 <= i < c.tensors.len() ==> {
            let t = #[trigger] c.tensors[i];
            &&& 1 <= t.dims.len() <= 4
            &&& forall|k: int| 0 <= k < t.dims.len() ==> t.dims[k] != 0
            &&& t.offset % c.alignment == 0
        }
}

// --------------------------------------------------------------- reader

/// A cursor over the file bytes; every read is bounds-checked and a
/// failure names what was being read and where.
struct Rd<'a> {
    b: &'a [u8],
    pos: usize,
}

impl<'a> Rd<'a> {
    spec fn ok(&self) -> bool {
        self.pos <= self.b@.len()
    }

    fn take(&mut self, n: usize, what: &'static str) -> (r: Result<&'a [u8], LoaderError>)
        requires
            old(self).ok(),
        ensures
            final(self).ok(),
            final(self).b == old(self).b,
            match spec_take(old(self).b@.len() as int, old(self).pos as int, n as int, what@) {
                Ok(q) => r matches Ok(s) && final(self).pos == q && s@ == old(self).b@.subrange(
                    old(self).pos as int,
                    q,
                ),
                Err(e) => r matches Err(x) && x@ == e,
            },
    {
        if n > usize::MAX - self.pos {
            let mut reason = text("length overflow reading ");
            push_str(&mut reason, what);
            return Err(LoaderError::Structure { reason });
        }
        let end = self.pos + n;
        if end > self.b.len() {
            return Err(LoaderError::Truncated { reading: what, at: self.pos });
        }
        let s = &self.b[self.pos..end];
        self.pos = end;
        Ok(s)
    }

    fn u8(&mut self, what: &'static str) -> (r: Result<u8, LoaderError>)
        requires
            old(self).ok(),
        ensures
            final(self).ok(),
            final(self).b == old(self).b,
            match spec_u8(old(self).b@, old(self).pos as int, what@) {
                Ok((v, q)) => r == Ok::<u8, LoaderError>(v) && final(self).pos == q,
                Err(e) => r matches Err(x) && x@ == e,
            },
    {
        let s = self.take(1, what)?;
        Ok(s[0])
    }

    fn u16(&mut self, what: &'static str) -> (r: Result<u16, LoaderError>)
        requires
            old(self).ok(),
        ensures
            final(self).ok(),
            final(self).b == old(self).b,
            match spec_u16(old(self).b@, old(self).pos as int, what@) {
                Ok((v, q)) => r == Ok::<u16, LoaderError>(v) && final(self).pos == q,
                Err(e) => r matches Err(x) && x@ == e,
            },
    {
        let s = self.take(2, what)?;
        Ok(s[0] as u16 + 256 * s[1] as u16)
    }

    fn u32(&mut self, what: &'static str) -> (r: Result<u32, LoaderError>)
        requires
            old(self).ok(),
        ensures
            final(self).ok(),
            final(self).b == old(self).b,
            match spec_u32(old(self).b@, old(self).pos as int, what@) {
                Ok((v, q)) => r == Ok::<u32, LoaderError>(v) && final(self).pos == q,
                Err(e) => r matches Err(x) && x@ == e,
            },
    {
        let s = self.take(4, what)?;
        Ok(s[0] as u32 + 256 * (s[1] as u32 + 256 * (s[2] as u32 + 256 * s[3] as u32)))
    }

    fn u64(&mut self, what: &'static str) -> (r: Result<u64, LoaderError>)
        requires
            old(self).ok(),
        ensures
            final(self).ok(),
            final(self).b == old(self).b,
            match spec_u64(old(self).b@, old(self).pos as int, what@) {
                Ok((v, q)) => r == Ok::<u64, LoaderError>(v) && final(self).pos == q,
                Err(e) => r matches Err(x) && x@ == e,
            },
    {
        let s = self.take(8, what)?;
        Ok(s[0] as u64 + 256 * (s[1] as u64 + 256 * (s[2] as u64 + 256 * (s[3] as u64 + 256 * (
        s[4] as u64 + 256 * (s[5] as u64 + 256 * (s[6] as u64 + 256 * s[7] as u64)))))))
    }

    fn string(&mut self, what: &'static str) -> (r: Result<String, LoaderError>)
        requires
            old(self).ok(),
        ensures
            final(self).ok(),
            final(self).b == old(self).b,
            match spec_string_capped(
                old(self).b@,
                old(self).pos as int,
                MAX_STRING_VALUE_BYTES as int,
                what@,
            ) {
                Ok((v, q)) => r matches Ok(s) && s@ == v && final(self).pos == q,
                Err(e) => r matches Err(x) && x@ == e,
            },
    {
        self.string_capped(MAX_STRING_VALUE_BYTES, what)
    }

    /// A string whose spec-bounded length is checked before any byte is
    /// copied, so a hostile length cannot force the allocation.
    fn string_capped(&mut self, max: u64, what: &'static str) -> (r: Result<String, LoaderError>)
        requires
            old(self).ok(),
        ensures
            final(self).ok(),
            final(self).b == old(self).b,
            match spec_string_capped(old(self).b@, old(self).pos as int, max as int, what@) {
                Ok((v, q)) => r matches Ok(s) && s@ == v && final(self).pos == q,
                Err(e) => r matches Err(x) && x@ == e,
            },
    {
        let len = self.u64(what)?;
        if len > usize::MAX as u64 {
            let mut reason = text("string length ");
            push_dec(&mut reason, len);
            push_str(&mut reason, " overflows usize (");
            push_str(&mut reason, what);
            push_str(&mut reason, ")");
            return Err(LoaderError::Structure { reason });
        }
        if len > max {
            let mut reason = text(what);
            push_str(&mut reason, " of ");
            push_dec(&mut reason, len);
            push_str(&mut reason, " bytes exceeds the spec's ");
            push_dec(&mut reason, max);
            return Err(LoaderError::Structure { reason });
        }
        let bytes = self.take(len as usize, what)?;
        match utf8_string(bytes) {
            Some(s) => Ok(s),
            None => {
                let mut reason = text("invalid UTF-8 in ");
                push_str(&mut reason, what);
                Err(LoaderError::Structure { reason })
            },
        }
    }
}

/// The fewest bytes one encoded value of this type can occupy; used to
/// bound array counts before allocating.
fn min_encoded_size(type_id: u32) -> (r: u64)
    ensures
        r == spec_min_encoded_size(type_id),
        r >= 1,
{
    match type_id {
        0 | 1 | 7 => 1,
        2..=3 => 2,
        4..=6 => 4,
        8 => 8,
        9 => 12,
        _ => 8,
    }
}

fn unknown_meta_type(key: &str, type_id: u32) -> (e: LoaderError)
    ensures
        e@ == (ErrKind::UnknownMetaType { key: key@, type_id }),
{
    LoaderError::UnknownMetaType { key: text(key), type_id }
}

/// Read one metadata value of the given type id.
fn read_value(r: &mut Rd<'_>, type_id: u32, key: &str, depth: u32) -> (res: Result<
    MetaValue,
    LoaderError,
>)
    requires
        old(r).ok(),
        depth <= MAX_ARRAY_NESTING + 1,
    ensures
        final(r).ok(),
        final(r).b == old(r).b,
        match spec_read_value(old(r).b@, old(r).pos as int, type_id, key@, depth as int) {
            Ok((v, q)) => res matches Ok(x) && x@ == v && final(r).pos == q,
            Err(e) => res matches Err(x) && x@ == e,
        },
    decreases 10 - depth,
{
    if depth > MAX_ARRAY_NESTING {
        let mut reason = text("metadata key \"");
        push_str(&mut reason, key);
        push_str(&mut reason, "\" nests arrays deeper than 8");
        return Err(LoaderError::Structure { reason });
    }
    match type_id {
        0 => Ok(MetaValue::U8(r.u8("a u8 value")?)),
        1 => Ok(MetaValue::I8(r.u8("an i8 value")? as i8)),
        2 => Ok(MetaValue::U16(r.u16("a u16 value")?)),
        3 => Ok(MetaValue::I16(r.u16("an i16 value")? as i16)),
        4 => Ok(MetaValue::U32(r.u32("a u32 value")?)),
        5 => Ok(MetaValue::I32(r.u32("an i32 value")? as i32)),
        6 => Ok(MetaValue::F32(r.u32("an f32 value")?)),
        7 => {
            let v = r.u8("a bool value")?;
            if v == 0 {
                Ok(MetaValue::Bool(false))
            } else if v == 1 {
                Ok(MetaValue::Bool(true))
            } else {
                let mut reason = text("bool byte for key \"");
                push_str(&mut reason, key);
                push_str(&mut reason, "\" is ");
                push_dec(&mut reason, v as u64);
                push_str(&mut reason, ", must be 0 or 1");
                Err(LoaderError::Structure { reason })
            }
        },
        8 => Ok(MetaValue::Str(r.string("a string value")?)),
        9 => read_array(r, key, depth),
        10 => Ok(MetaValue::U64(r.u64("a u64 value")?)),
        11 => Ok(MetaValue::I64(r.u64("an i64 value")? as i64)),
        12 => Ok(MetaValue::F64(r.u64("an f64 value")?)),
        _ => Err(unknown_meta_type(key, type_id)),
    }
}

/// An array value: element type, count, then the elements.
fn read_array(r: &mut Rd<'_>, key: &str, depth: u32) -> (res: Result<MetaValue, LoaderError>)
    requires
        old(r).ok(),
        depth <= MAX_ARRAY_NESTING,
    ensures
        final(r).ok(),
        final(r).b == old(r).b,
        match spec_read_value(old(r).b@, old(r).pos as int, 9, key@, depth as int) {
            Ok((v, q)) => res matches Ok(x) && x@ == v && final(r).pos == q,
            Err(e) => res matches Err(x) && x@ == e,
        },
    decreases 10 - depth, 0nat,
{
    let elem_type_id = r.u32("an array's element type")?;
    if elem_type_id > 12 {
        return Err(unknown_meta_type(key, elem_type_id));
    }
    let count = r.u64("an array's element count")?;
    let min = min_encoded_size(elem_type_id);
    let remaining = (r.b.len() - r.pos) as u64;
    if count > MAX_ARRAY_ELEMS {
        let mut reason = text("array under key \"");
        push_str(&mut reason, key);
        push_str(&mut reason, "\" claims ");
        push_dec(&mut reason, count);
        push_str(&mut reason, " elements, above the 10000000 cap");
        return Err(LoaderError::Structure { reason });
    }
    if count > remaining / min {
        let mut reason = text("array under key \"");
        push_str(&mut reason, key);
        push_str(&mut reason, "\" claims ");
        push_dec(&mut reason, count);
        push_str(&mut reason, " elements, file cannot hold them");
        return Err(LoaderError::Structure { reason });
    }
    let ghost b = r.b@;
    let ghost start = r.pos as int;
    let ghost d = depth as int + 1;
    let ghost whole = spec_read_value(b, old(r).pos as int, 9, key@, depth as int);
    proof {
        assert(whole == match spec_read_items(b, start, elem_type_id, key@, d, count as int, Seq::empty()) {
            Err(e) => Err(e),
            Ok((items, s)) => Ok((MetaSpec::Array { elem_type_id, items }, s)),
        });
        assert(meta_models(Seq::<MetaValue>::empty()) =~= Seq::<MetaSpec>::empty());
    }
    let mut items: Vec<MetaValue> = Vec::new();
    let mut k: u64 = 0;
    while k < count
        invariant
            r.ok(),
            r.b == old(r).b,
            b == old(r).b@,
            whole == spec_read_value(b, old(r).pos as int, 9, key@, depth as int),
            whole == match spec_read_items(b, start, elem_type_id, key@, d, count as int, Seq::empty()) {
                Err(e) => Err(e),
                Ok((items, s)) => Ok((MetaSpec::Array { elem_type_id, items }, s)),
            },
            k <= count,
            depth <= MAX_ARRAY_NESTING,
            d == depth + 1,
            spec_read_items(b, start, elem_type_id, key@, d, count as int, Seq::empty())
                == spec_read_items(
                b,
                r.pos as int,
                elem_type_id,
                key@,
                d,
                (count - k) as int,
                meta_models(items@),
            ),
        decreases count - k,
    {
        let v = read_value(r, elem_type_id, key, depth + 1)?;
        let ghost before = items@;
        items.push(v);
        proof {
            assert(items@.drop_last() =~= before);
        }
        k = k + 1;
    }
    Ok(MetaValue::Array { elem_type_id, items })
}

fn structure_at(prefix: &str, n: u64, suffix: &str) -> (e: LoaderError)
    ensures
        e@ == (ErrKind::Structure { reason: prefix@ + dec(n as nat) + suffix@ }),
{
    let mut reason = text(prefix);
    push_dec(&mut reason, n);
    push_str(&mut reason, suffix);
    LoaderError::Structure { reason }
}

fn structure_named(prefix: &str, name: &str, suffix: &str) -> (e: LoaderError)
    ensures
        e@ == (ErrKind::Structure { reason: prefix@ + name@ + suffix@ }),
{
    let mut reason = text(prefix);
    push_str(&mut reason, name);
    push_str(&mut reason, suffix);
    LoaderError::Structure { reason }
}

/// Parse the container out of the raw file bytes.
pub fn parse(bytes: &[u8]) -> (res: Result<Container, LoaderError>)
    ensures
        match spec_parse(bytes@) {
            Ok(c) => res matches Ok(x) && x@ == c,
            Err(e) => res matches Err(x) && x@ == e,
        },
        res matches Ok(c) ==> container_wf(c@) && c.file_len == bytes@.len(),
{
    let mut r = Rd { b: bytes, pos: 0 };
    let magic = r.take(4, "the magic bytes")?;
    if !(magic[0] == 0x47 && magic[1] == 0x47 && magic[2] == 0x55 && magic[3] == 0x46) {
        let found = [magic[0], magic[1], magic[2], magic[3]];
        proof {
            assert(found@ =~= bytes@.take(4));
            assert(bytes@.take(4) != gguf_magic()) by {
                if bytes@.take(4) == gguf_magic() {
                    assert(bytes@.take(4)[0] == 0x47u8);
                    assert(bytes@.take(4)[1] == 0x47u8);
                    assert(bytes@.take(4)[2] == 0x55u8);
                    assert(bytes@.take(4)[3] == 0x46u8);
                }
            }
        }
        return Err(LoaderError::NotGguf { found });
    }
    proof {
        assert(bytes@.take(4) =~= gguf_magic());
    }
    let version = r.u32("the version field")?;
    if version != 3 {
        return Err(LoaderError::UnsupportedVersion { found: version });
    }
    let tensor_count = r.u64("the tensor count")?;
    if tensor_count > MAX_TENSORS {
        return Err(
            structure_at("tensor count ", tensor_count, " exceeds the sanity cap 1000000"),
        );
    }
    let kv_count = r.u64("the metadata count")?;
    if kv_count > MAX_METADATA_KVS {
        return Err(structure_at("metadata count ", kv_count, " exceeds the sanity cap 100000"));
    }
    let res = parse_body(&mut r, tensor_count, kv_count);
    proof {
        if res is Ok {
            lemma_parse_wf(bytes@, res->Ok_0@);
        }
    }
    res
}

/// Key-values, alignment, tensor infos and padding, after the counts.
fn parse_body(r: &mut Rd<'_>, tensor_count: u64, kv_count: u64) -> (res: Result<
    Container,
    LoaderError,
>)
    requires
        old(r).ok(),
    ensures
        match spec_parse_body(
            old(r).b@,
            old(r).pos as int,
            tensor_count as int,
            kv_count as int,
        ) {
            Ok(c) => res matches Ok(x) && x@ == c,
            Err(e) => res matches Err(x) && x@ == e,
        },
        res matches Ok(c) ==> c.file_len == old(r).b@.len(),
{
    let metadata = read_kvs(r, kv_count)?;
    let alignment = resolve_alignment(&metadata)?;
    let tensors = read_tensors(r, tensor_count, alignment)?;
    let data_start = read_padding(r, alignment)?;
    let c = Container { metadata, tensors, alignment, data_start, file_len: r.b.len() };
    Ok(c)
}

/// `kv_count` metadata key-values.
fn read_kvs(r: &mut Rd<'_>, kv_count: u64) -> (res: Result<Metadata, LoaderError>)
    requires
        old(r).ok(),
    ensures
        final(r).ok(),
        final(r).b == old(r).b,
        match spec_read_kvs(old(r).b@, old(r).pos as int, kv_count as int, KvSpec::empty()) {
            Ok((kvs, q)) => res matches Ok(x) && x@ == kvs && final(r).pos == q,
            Err(e) => res matches Err(x) && x@ == e,
        },
{
    let ghost b = r.b@;
    let ghost kv_start = r.pos as int;
    let mut metadata = Metadata::new();
    let mut k: u64 = 0;
    while k < kv_count
        invariant
            r.ok(),
            r.b == old(r).b,
            b == old(r).b@,
            kv_start == old(r).pos,
            k <= kv_count,
            spec_read_kvs(b, kv_start, kv_count as int, KvSpec::empty()) == spec_read_kvs(
                b,
                r.pos as int,
                (kv_count - k) as int,
                metadata@,
            ),
        decreases kv_count - k,
    {
        let (key, value) = read_kv(r, &metadata)?;
        metadata.push_new(key, value);
        k = k + 1;
    }
    Ok(metadata)
}

/// One metadata key-value pair; `metadata` holds the pairs before it.
fn read_kv(r: &mut Rd<'_>, metadata: &Metadata) -> (res: Result<(String, MetaValue), LoaderError>)
    requires
        old(r).ok(),
    ensures
        final(r).ok(),
        final(r).b == old(r).b,
        match spec_kv(old(r).b@, old(r).pos as int, metadata@) {
            Ok((kv, q)) => res matches Ok(x) && x.0@ == kv.0 && x.1@ == kv.1 && final(r).pos == q,
            Err(e) => res matches Err(x) && x@ == e,
        },
{
    // spec: keys are ASCII, at most 65535 bytes; the cap applies before
    // any byte is copied
    let key = r.string_capped(MAX_KEY_BYTES, "a metadata key")?;
    if !key.is_ascii() {
        return Err(
            structure_named(
                "metadata key \"",
                key.as_str(),
                "\" is not ASCII (the spec requires it)",
            ),
        );
    }
    // duplicate keys refuse before their value is parsed, so a hostile
    // duplicate cannot attach an expensive payload
    if metadata.contains_key(key.as_str()) {
        return Err(structure_named("duplicate metadata key \"", key.as_str(), "\""));
    }
    let type_id = r.u32("a metadata value type")?;
    let value = read_value(r, type_id, key.as_str(), 0)?;
    Ok((key, value))
}

/// `tensor_count` tensor infos.
fn read_tensors(r: &mut Rd<'_>, tensor_count: u64, alignment: u64) -> (res: Result<
    Vec<TensorInfo>,
    LoaderError,
>)
    requires
        old(r).ok(),
        alignment > 0,
    ensures
        final(r).ok(),
        final(r).b == old(r).b,
        match spec_read_tensors(
            old(r).b@,
            old(r).pos as int,
            tensor_count as int,
            alignment,
            Seq::empty(),
        ) {
            Ok((ts, q)) => res matches Ok(x) && x@.map_values(|t: TensorInfo| t@) == ts
                && final(r).pos == q,
            Err(e) => res matches Err(x) && x@ == e,
        },
{
    let ghost b = r.b@;
    let ghost t_start = r.pos as int;
    let mut tensors: Vec<TensorInfo> = Vec::new();
    proof {
        assert(tensors@.map_values(|t: TensorInfo| t@) =~= Seq::<TensorSpec>::empty());
    }
    let mut n: u64 = 0;
    while n < tensor_count
        invariant
            r.ok(),
            r.b == old(r).b,
            b == old(r).b@,
            t_start == old(r).pos,
            n <= tensor_count,
            alignment > 0,
            spec_read_tensors(b, t_start, tensor_count as int, alignment, Seq::empty())
                == spec_read_tensors(
                b,
                r.pos as int,
                (tensor_count - n) as int,
                alignment,
                tensors@.map_values(|t: TensorInfo| t@),
            ),
        decreases tensor_count - n,
    {
        let info = read_tensor_info(r, alignment, &tensors)?;
        let ghost before = tensors@.map_values(|t: TensorInfo| t@);
        tensors.push(info);
        proof {
            assert(tensors@.map_values(|t: TensorInfo| t@) =~= before.push(info@));
        }
        n = n + 1;
    }
    Ok(tensors)
}

/// Zero-padding up to the alignment; the position where tensor data
/// starts.
fn read_padding(r: &mut Rd<'_>, alignment: u64) -> (res: Result<usize, LoaderError>)
    requires
        old(r).ok(),
        alignment > 0,
        alignment <= u32::MAX,
    ensures
        *final(r) == *old(r),
        match spec_data_start(old(r).b@, old(r).pos as int, alignment as int) {
            Ok(q) => res == Ok::<usize, LoaderError>(q as usize),
            Err(e) => res matches Err(x) && x@ == e,
        },
{
    let ghost b = r.b@;
    let align = alignment as usize;
    let rem = r.pos % align;
    let pad = if rem == 0 {
        0
    } else {
        align - rem
    };
    if pad > usize::MAX - r.pos {
        return Err(LoaderError::Structure { reason: text("padding overflows the file position") });
    }
    let data_start = r.pos + pad;
    if data_start > r.b.len() {
        return Err(
            LoaderError::Truncated { reading: "the padding before tensor data", at: r.pos },
        );
    }
    let mut i = r.pos;
    while i < data_start
        invariant
            r.ok(),
            *r == *old(r),
            b == r.b@,
            r.pos <= i <= data_start <= b.len(),
            data_start as int == r.pos + (if (r.pos as int) % (alignment as int) == 0 {
                0
            } else {
                alignment - (r.pos as int) % (alignment as int)
            }),
            forall|j: int| r.pos <= j < i ==> b[j] == 0,
        decreases data_start - i,
    {
        if r.b[i] != 0 {
            proof {
                assert(b.subrange(r.pos as int, data_start as int)[i - r.pos] != 0);
            }
            return Err(
                LoaderError::Structure { reason: text("padding before tensor data is not zeroed") },
            );
        }
        i = i + 1;
    }
    proof {
        assert(all_zero(b.subrange(r.pos as int, data_start as int)));
    }
    Ok(data_start)
}

/// The alignment the metadata declares, default 32; must be a positive
/// multiple of 8.
fn resolve_alignment(metadata: &Metadata) -> (res: Result<u64, LoaderError>)
    ensures
        match spec_alignment(metadata@) {
            Ok(a) => res == Ok::<u64, LoaderError>(a),
            Err(e) => res matches Err(x) && x@ == e,
        },
{
    // spec: general.alignment is a u32; anything else is refused.
    let alignment: u64 = match metadata.get("general.alignment") {
        None => 32,
        Some(MetaValue::U32(a)) => *a as u64,
        Some(other) => {
            return Err(
                LoaderError::WrongType {
                    key: text("general.alignment"),
                    want: "u32",
                    found: other.kind(),
                },
            );
        },
    };
    if alignment == 0 || alignment % 8 != 0 {
        return Err(
            structure_at("alignment ", alignment, " is not a positive multiple of 8"),
        );
    }
    Ok(alignment)
}

/// Whether a tensor of this name was read already.
fn has_tensor(tensors: &Vec<TensorInfo>, name: &str) -> (r: bool)
    ensures
        r == tensor_names(tensors@.map_values(|t: TensorInfo| t@)).contains(name@),
{
    let ghost names = tensor_names(tensors@.map_values(|t: TensorInfo| t@));
    let mut i: usize = 0;
    while i < tensors.len()
        invariant
            i <= tensors@.len(),
            names == tensor_names(tensors@.map_values(|t: TensorInfo| t@)),
            forall|j: int| 0 <= j < i ==> names[j] != name@,
        decreases tensors.len() - i,
    {
        if str_eq(tensors[i].name.as_str(), name) {
            proof {
                assert(names[i as int] == name@);
            }
            return true;
        }
        i = i + 1;
    }
    false
}

/// `n_dims` nonzero dimensions.
fn read_dims(r: &mut Rd<'_>, n_dims: u32, name: &str) -> (res: Result<Vec<u64>, LoaderError>)
    requires
        old(r).ok(),
    ensures
        final(r).ok(),
        final(r).b == old(r).b,
        match spec_read_dims(old(r).b@, old(r).pos as int, n_dims as int, Seq::empty(), name@) {
            Ok((dims, q)) => res matches Ok(x) && x@ == dims && final(r).pos == q,
            Err(e) => res matches Err(x) && x@ == e,
        },
{
    let ghost b = r.b@;
    let ghost d_start = r.pos as int;
    let mut dims: Vec<u64> = Vec::new();
    let mut k: u32 = 0;
    while k < n_dims
        invariant
            r.ok(),
            r.b == old(r).b,
            b == old(r).b@,
            d_start == old(r).pos,
            k <= n_dims,
            spec_read_dims(b, d_start, n_dims as int, Seq::empty(), name@) == spec_read_dims(
                b,
                r.pos as int,
                (n_dims - k) as int,
                dims@,
                name@,
            ),
        decreases n_dims - k,
    {
        let d = r.u64("a tensor dimension")?;
        if d == 0 {
            return Err(structure_named("tensor \"", name, "\" has a zero dimension"));
        }
        dims.push(d);
        k = k + 1;
    }
    Ok(dims)
}

/// One tensor's directory entry.
fn read_tensor_info(r: &mut Rd<'_>, alignment: u64, seen: &Vec<TensorInfo>) -> (res: Result<
    TensorInfo,
    LoaderError,
>)
    requires
        old(r).ok(),
        alignment > 0,
    ensures
        final(r).ok(),
        final(r).b == old(r).b,
        match spec_tensor_info(
            old(r).b@,
            old(r).pos as int,
            alignment,
            seen@.map_values(|t: TensorInfo| t@),
        ) {
            Ok((t, q)) => res matches Ok(x) && x@ == t && final(r).pos == q,
            Err(e) => res matches Err(x) && x@ == e,
        },
{
    let name = r.string_capped(MAX_TENSOR_NAME_BYTES, "a tensor name")?;
    if has_tensor(seen, name.as_str()) {
        return Err(structure_named("duplicate tensor \"", name.as_str(), "\""));
    }
    let n_dims = r.u32("a tensor's dimension count")?;
    if n_dims == 0 || n_dims > MAX_TENSOR_DIMS {
        let mut reason = text("tensor \"");
        push_str(&mut reason, name.as_str());
        push_str(&mut reason, "\" has ");
        push_dec(&mut reason, n_dims as u64);
        push_str(&mut reason, " dims; the spec allows 1 to 4");
        return Err(LoaderError::Structure { reason });
    }
    let dims = read_dims(r, n_dims, name.as_str())?;
    let type_id = r.u32("a tensor's ggml type")?;
    let offset = r.u64("a tensor's data offset")?;
    if offset % alignment != 0 {
        let mut reason = text("tensor \"");
        push_str(&mut reason, name.as_str());
        push_str(&mut reason, "\" offset ");
        push_dec(&mut reason, offset);
        push_str(&mut reason, " is not aligned to ");
        push_dec(&mut reason, alignment);
        return Err(LoaderError::Structure { reason });
    }
    Ok(TensorInfo { name, dims, type_id, offset })
}

// ----------------------------------------------------------------- laws

proof fn lemma_read_kvs_wf(b: Seq<u8>, p: int, n: int, acc: KvSpec)
    requires
        keys_unique(acc),
        forall|i: int| 0 <= i < acc.len() ==> is_ascii_chars(#[trigger] acc[i].0),
    ensures
        spec_read_kvs(b, p, n, acc) matches Ok((kvs, _)) ==> keys_unique(kvs) && forall|i: int|
            0 <= i < kvs.len() ==> is_ascii_chars(#[trigger] kvs[i].0),
    decreases n,
{
    if n > 0 {
        if let Ok((kv, q)) = spec_kv(b, p, acc) {
            let next = acc.push(kv);
            assert forall|i: int, j: int| 0 <= i < j < next.len() implies next[i].0 != next[j].0 by {
                if j == acc.len() {
                    assert(kv_keys(acc)[i] == acc[i].0);
                }
            }
            lemma_read_kvs_wf(b, q, n - 1, next);
        }
    }
}

proof fn lemma_read_dims_wf(b: Seq<u8>, p: int, n: int, acc: Seq<u64>, name: Seq<char>)
    requires
        forall|k: int| 0 <= k < acc.len() ==> acc[k] != 0,
    ensures
        spec_read_dims(b, p, n, acc, name) matches Ok((dims, _)) ==> dims.len() == acc.len() + (if n
            > 0 {
            n
        } else {
            0
        }) && forall|k: int| 0 <= k < dims.len() ==> dims[k] != 0,
    decreases n,
{
    if n > 0 {
        if let Ok((d, q)) = spec_u64(b, p, "a tensor dimension"@) {
            if d != 0 {
                lemma_read_dims_wf(b, q, n - 1, acc.push(d), name);
            }
        }
    }
}

pub open spec fn tensors_wf(ts: Seq<TensorSpec>, align: u64) -> bool {
    &&& forall|i: int, j: int| 0 <= i < j < ts.len() ==> ts[i].name != ts[j].name
    &&& forall|i: int|
        0 <= i < ts.len() ==> {
            let t = #[trigger] ts[i];
            &&& 1 <= t.dims.len() <= 4
            &&& forall|k: int| 0 <= k < t.dims.len() ==> t.dims[k] != 0
            &&& t.offset % align == 0
        }
}

proof fn lemma_read_tensors_wf(b: Seq<u8>, p: int, n: int, align: u64, acc: Seq<TensorSpec>)
    requires
        align > 0,
        tensors_wf(acc, align),
    ensures
        spec_read_tensors(b, p, n, align, acc) matches Ok((ts, _)) ==> tensors_wf(ts, align),
    decreases n,
{
    if n > 0 {
        if let Ok((t, q)) = spec_tensor_info(b, p, align, acc) {
            let (name, q1) = spec_string_capped(b, p, MAX_TENSOR_NAME_BYTES as int, "a tensor name"@)->Ok_0;
            let (nd, r) = spec_u32(b, q1, "a tensor's dimension count"@)->Ok_0;
            lemma_read_dims_wf(b, r, nd as int, Seq::empty(), name);
            let next = acc.push(t);
            assert forall|i: int, j: int| 0 <= i < j < next.len() implies next[i].name
                != next[j].name by {
                if j == acc.len() {
                    assert(tensor_names(acc)[i] == acc[i].name);
                }
            }
            lemma_read_tensors_wf(b, q, n - 1, align, next);
        }
    }
}

proof fn lemma_padding(p: int, align: int)
    requires
        align > 0,
    ensures
        (p + (if p % align == 0 {
            0
        } else {
            align - p % align
        })) % align == 0,
{
    let rem = p % align;
    let pad = if rem == 0 {
        0
    } else {
        align - rem
    };
    vstd::arithmetic::div_mod::lemma_fundamental_div_mod(p, align);
    if rem == 0 {
    } else {
        assert(p + pad == align * (p / align) + align);
        assert(p + pad == align * (p / align + 1)) by (nonlinear_arith)
            requires
                p + pad == align * (p / align) + align,
        ;
        vstd::arithmetic::div_mod::lemma_mod_multiples_basic(p / align + 1, align);
        assert((align * (p / align + 1)) % align == 0) by (nonlinear_arith)
            requires
                ((p / align + 1) * align) % align == 0,
        ;
    }
}

proof fn lemma_parse_wf(b: Seq<u8>, c: ContainerSpec)
    requires
        spec_parse(b) == Ok::<ContainerSpec, ErrKind>(c),
    ensures
        container_wf(c),
{
    let (_, p1) = spec_u32(b, 4, "the version field"@)->Ok_0;
    let (nt, p2) = spec_u64(b, p1, "the tensor count"@)->Ok_0;
    let (nk, p3) = spec_u64(b, p2, "the metadata count"@)->Ok_0;
    lemma_read_kvs_wf(b, p3, nk as int, KvSpec::empty());
    let (kvs, q) = spec_read_kvs(b, p3, nk as int, KvSpec::empty())->Ok_0;
    let align = spec_alignment(kvs)->Ok_0;
    lemma_read_tensors_wf(b, q, nt as int, align, Seq::empty());
    let (ts, r) = spec_read_tensors(b, q, nt as int, align, Seq::empty())->Ok_0;
    lemma_padding(r, align as int);
}

/// Every container the grammar accepts is well formed.
pub proof fn lemma_parse_ok_wf(b: Seq<u8>)
    requires
        spec_parse(b) is Ok,
    ensures
        container_wf(spec_parse(b)->Ok_0),
        spec_parse(b)->Ok_0.file_len == b.len(),
{
    lemma_parse_wf(b, spec_parse(b)->Ok_0);
    lemma_parse_file_len(b);
}

proof fn lemma_parse_file_len(b: Seq<u8>)
    requires
        spec_parse(b) is Ok,
    ensures
        spec_parse(b)->Ok_0.file_len == b.len(),
{
    let (_, p1) = spec_u32(b, 4, "the version field"@)->Ok_0;
    let (nt, p2) = spec_u64(b, p1, "the tensor count"@)->Ok_0;
    let (nk, p3) = spec_u64(b, p2, "the metadata count"@)->Ok_0;
    assert(spec_parse(b) == spec_parse_body(b, p3, nt as int, nk as int));
}

} // verus!
