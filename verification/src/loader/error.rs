//! `LoaderError` — every way the loader can refuse a file. Each variant
//! carries what was found and, in its message, what is supported.

use vstd::prelude::*;
use vstd::string::*;

use crate::text::{dec, dec_list, push_dec, push_dec_list, push_str};

verus! {

#[verifier::external_type_specification]
#[verifier::external_body]
pub struct ExIoError(std::io::Error);

/// Every refusal of the loader.
#[derive(Debug)]
#[allow(inconsistent_fields)]
pub enum LoaderError {
    /// The OS failed: open, metadata, or read.
    Io(std::io::Error),
    /// The first four bytes are not "GGUF".
    NotGguf { found: [u8; 4] },
    /// The version field is not the one implemented.
    UnsupportedVersion { found: u32 },
    /// `general.architecture` names a family that is not implemented.
    UnsupportedArchitecture { found: String },
    /// A tensor uses a ggml type that cannot be decoded.
    UnsupportedTensorType { name: String, type_id: u32 },
    /// A metadata value carries a type id outside the spec's 0..=12.
    UnknownMetaType { key: String, type_id: u32 },
    /// A key the family requires is absent.
    MissingKey { key: &'static str },
    /// A key exists with the wrong value type.
    WrongType { key: String, want: &'static str, found: &'static str },
    /// The expected tensor set is incomplete.
    MissingTensor { name: String },
    /// The file carries a tensor the family does not explain.
    UnexpectedTensor { name: String },
    /// A tensor's (reversed) dims do not match the family's shape.
    WrongShape { name: String, want: Vec<usize>, found: Vec<usize> },
    /// The file ended before the field being read did.
    Truncated { reading: &'static str, at: usize },
    /// A structural rule broke: bounds, alignment, overlap, counts.
    Structure { reason: String },
    /// The chat template failed to parse at load time.
    Template { reason: String },
}

/// What a refusal says.
#[allow(inconsistent_fields)]
pub ghost enum ErrKind {
    Io,
    NotGguf { found: Seq<u8> },
    UnsupportedVersion { found: u32 },
    UnsupportedArchitecture { found: Seq<char> },
    UnsupportedTensorType { name: Seq<char>, type_id: u32 },
    UnknownMetaType { key: Seq<char>, type_id: u32 },
    MissingKey { key: Seq<char> },
    WrongType { key: Seq<char>, want: Seq<char>, found: Seq<char> },
    MissingTensor { name: Seq<char> },
    UnexpectedTensor { name: Seq<char> },
    WrongShape { name: Seq<char>, want: Seq<usize>, found: Seq<usize> },
    Truncated { reading: Seq<char>, at: int },
    Structure { reason: Seq<char> },
    Template { reason: Seq<char> },
}

impl View for LoaderError {
    type V = ErrKind;

    open spec fn view(&self) -> ErrKind {
        match self {
            LoaderError::Io(_) => ErrKind::Io,
            LoaderError::NotGguf { found } => ErrKind::NotGguf { found: found@ },
            LoaderError::UnsupportedVersion { found } => ErrKind::UnsupportedVersion { found: *found },
            LoaderError::UnsupportedArchitecture { found } => ErrKind::UnsupportedArchitecture {
                found: found@,
            },
            LoaderError::UnsupportedTensorType { name, type_id } => ErrKind::UnsupportedTensorType {
                name: name@,
                type_id: *type_id,
            },
            LoaderError::UnknownMetaType { key, type_id } => ErrKind::UnknownMetaType {
                key: key@,
                type_id: *type_id,
            },
            LoaderError::MissingKey { key } => ErrKind::MissingKey { key: key@ },
            LoaderError::WrongType { key, want, found } => ErrKind::WrongType {
                key: key@,
                want: want@,
                found: found@,
            },
            LoaderError::MissingTensor { name } => ErrKind::MissingTensor { name: name@ },
            LoaderError::UnexpectedTensor { name } => ErrKind::UnexpectedTensor { name: name@ },
            LoaderError::WrongShape { name, want, found } => ErrKind::WrongShape {
                name: name@,
                want: want@,
                found: found@,
            },
            LoaderError::Truncated { reading, at } => ErrKind::Truncated { reading: reading@, at: *at as int },
            LoaderError::Structure { reason } => ErrKind::Structure { reason: reason@ },
            LoaderError::Template { reason } => ErrKind::Template { reason: reason@ },
        }
    }
}

/// The version value that is 3 read with its bytes swapped.
pub const BIG_ENDIAN_THREE: u32 = 50_331_648;

pub open spec fn quoted(s: Seq<char>) -> Seq<char> {
    seq!['"'] + s + seq!['"']
}

pub open spec fn usize_nats(s: Seq<usize>) -> Seq<nat> {
    s.map_values(|x: usize| x as nat)
}

pub open spec fn u8_nats(s: Seq<u8>) -> Seq<nat> {
    s.map_values(|x: u8| x as nat)
}

impl LoaderError {
    /// The message of every refusal but `Io`, whose text comes from the OS.
    pub open spec fn message(&self) -> Seq<char> {
        match self {
            LoaderError::Io(_) => "io error: "@,
            LoaderError::NotGguf { found } => "not a GGUF file (first bytes "@ + dec_list(
                u8_nats(found@),
            ) + ", expected \"GGUF\")"@,
            LoaderError::UnsupportedVersion { found } => if *found == BIG_ENDIAN_THREE {
                "GGUF version "@ + dec(*found as nat)
                    + "; nucleon supports 3 (this value is 3 read big-endian; big-endian files are not supported)"@
            } else {
                "GGUF version "@ + dec(*found as nat) + "; nucleon supports 3"@
            },
            LoaderError::UnsupportedArchitecture { found } => "architecture "@ + quoted(found@)
                + "; nucleon supports: qwen3"@,
            LoaderError::UnsupportedTensorType { name, type_id } => "tensor "@ + quoted(name@)
                + " has ggml type "@ + dec(*type_id as nat) + "; supported: F32 (0), Q8_0 (8)"@,
            LoaderError::UnknownMetaType { key, type_id } => "metadata key "@ + quoted(key@)
                + " has unknown value type id "@ + dec(*type_id as nat) + " (spec defines 0..=12)"@,
            LoaderError::MissingKey { key } => "missing metadata key "@ + quoted(key@),
            LoaderError::WrongType { key, want, found } => "metadata key "@ + quoted(key@)
                + " has type "@ + found@ + ", expected "@ + want@,
            LoaderError::MissingTensor { name } => "missing tensor "@ + quoted(name@),
            LoaderError::UnexpectedTensor { name } => "unexpected tensor "@ + quoted(name@)
                + " (not part of the qwen3 family)"@,
            LoaderError::WrongShape { name, want, found } => "tensor "@ + quoted(name@)
                + " has shape "@ + dec_list(usize_nats(found@)) + ", expected "@ + dec_list(
                usize_nats(want@),
            ),
            LoaderError::Truncated { reading, at } => "file ends inside "@ + reading@
                + " (at byte "@ + dec(*at as nat) + ")"@,
            LoaderError::Structure { reason } => "malformed file: "@ + reason@,
            LoaderError::Template { reason } => "chat template does not parse: "@ + reason@,
        }
    }

    /// The human-readable refusal. For `Io` the OS text follows the
    /// prefix; every other message is exactly `message()`.
    pub fn to_string(&self) -> (r: String)
        ensures
            !(self is Io) ==> r@ == self.message(),
            self is Io ==> r@.len() >= self.message().len() && r@.take(
                self.message().len() as int,
            ) == self.message(),
    {
        let mut out = String::new();
        match self {
            LoaderError::Io(e) => {
                push_str(&mut out, "io error: ");
                let t = io_error_text(e);
                push_str(&mut out, t.as_str());
                proof {
                    assert(out@.take("io error: "@.len() as int) =~= "io error: "@);
                }
            },
            LoaderError::NotGguf { found } => {
                push_str(&mut out, "not a GGUF file (first bytes ");
                let wide: Vec<u64> = vec![found[0] as u64, found[1] as u64, found[2] as u64, found[3] as u64];
                proof {
                    assert(wide@.map_values(|x: u64| x as nat) =~= u8_nats(found@));
                }
                push_dec_list(&mut out, wide.as_slice());
                push_str(&mut out, ", expected \"GGUF\")");
            },
            LoaderError::UnsupportedVersion { found } => {
                push_str(&mut out, "GGUF version ");
                push_dec(&mut out, *found as u64);
                if *found == BIG_ENDIAN_THREE {
                    push_str(
                        &mut out,
                        "; nucleon supports 3 (this value is 3 read big-endian; big-endian files are not supported)",
                    );
                } else {
                    push_str(&mut out, "; nucleon supports 3");
                }
            },
            LoaderError::UnsupportedArchitecture { found } => {
                push_str(&mut out, "architecture ");
                push_quoted(&mut out, found.as_str());
                push_str(&mut out, "; nucleon supports: qwen3");
            },
            LoaderError::UnsupportedTensorType { name, type_id } => {
                push_str(&mut out, "tensor ");
                push_quoted(&mut out, name.as_str());
                push_str(&mut out, " has ggml type ");
                push_dec(&mut out, *type_id as u64);
                push_str(&mut out, "; supported: F32 (0), Q8_0 (8)");
            },
            LoaderError::UnknownMetaType { key, type_id } => {
                push_str(&mut out, "metadata key ");
                push_quoted(&mut out, key.as_str());
                push_str(&mut out, " has unknown value type id ");
                push_dec(&mut out, *type_id as u64);
                push_str(&mut out, " (spec defines 0..=12)");
            },
            LoaderError::MissingKey { key } => {
                push_str(&mut out, "missing metadata key ");
                push_quoted(&mut out, key);
            },
            LoaderError::WrongType { key, want, found } => {
                push_str(&mut out, "metadata key ");
                push_quoted(&mut out, key.as_str());
                push_str(&mut out, " has type ");
                push_str(&mut out, found);
                push_str(&mut out, ", expected ");
                push_str(&mut out, want);
            },
            LoaderError::MissingTensor { name } => {
                push_str(&mut out, "missing tensor ");
                push_quoted(&mut out, name.as_str());
            },
            LoaderError::UnexpectedTensor { name } => {
                push_str(&mut out, "unexpected tensor ");
                push_quoted(&mut out, name.as_str());
                push_str(&mut out, " (not part of the qwen3 family)");
            },
            LoaderError::WrongShape { name, want, found } => {
                push_str(&mut out, "tensor ");
                push_quoted(&mut out, name.as_str());
                push_str(&mut out, " has shape ");
                let f = widen(found.as_slice());
                push_dec_list(&mut out, f.as_slice());
                push_str(&mut out, ", expected ");
                let w = widen(want.as_slice());
                push_dec_list(&mut out, w.as_slice());
            },
            LoaderError::Truncated { reading, at } => {
                push_str(&mut out, "file ends inside ");
                push_str(&mut out, reading);
                push_str(&mut out, " (at byte ");
                push_dec(&mut out, *at as u64);
                push_str(&mut out, ")");
            },
            LoaderError::Structure { reason } => {
                push_str(&mut out, "malformed file: ");
                push_str(&mut out, reason.as_str());
            },
            LoaderError::Template { reason } => {
                push_str(&mut out, "chat template does not parse: ");
                push_str(&mut out, reason.as_str());
            },
        }
        proof {
            assert(out@ =~= self.message() || self is Io);
        }
        out
    }
}

/// `"s"`: the string between double quotes.
pub fn push_quoted(out: &mut String, s: &str)
    ensures
        final(out)@ == old(out)@ + quoted(s@),
{
    proof {
        reveal_strlit("\"");
    }
    out.append("\"");
    out.append(s);
    out.append("\"");
    proof {
        assert(final(out)@ =~= old(out)@ + quoted(s@));
    }
}

/// The numbers of a shape, widened for printing.
pub fn widen(s: &[usize]) -> (r: Vec<u64>)
    ensures
        r@.map_values(|x: u64| x as nat) == usize_nats(s@),
{
    let mut r: Vec<u64> = Vec::new();
    let mut i: usize = 0;
    while i < s.len()
        invariant
            i <= s.len(),
            r@.len() == i,
            forall|j: int| 0 <= j < i ==> r@[j] as nat == s@[j] as nat,
        decreases s.len() - i,
    {
        r.push(s[i] as u64);
        i = i + 1;
    }
    proof {
        assert(r@.map_values(|x: u64| x as nat) =~= usize_nats(s@));
    }
    r
}

/// The OS's own description of an I/O failure.
#[verifier::external_body]
fn io_error_text(e: &std::io::Error) -> String {
    e.to_string()
}

} // verus!
