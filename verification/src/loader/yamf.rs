//! The loader and the Yamf ("Yet Another Model Format": memory only, never
//! serialized). `load_bytes` runs once, at startup. Exactly two things
//! come out: a complete `Yamf`, or a refusal naming what was expected,
//! what the file held, and why that cannot be supported. Nothing
//! GGUF-shaped crosses this border.

use vstd::prelude::*;

use crate::loader::config::{family_config, get_u32_exact, spec_family_config, spec_get_u32_exact, FamilyConfig};
use crate::loader::container::{container_wf, parse, spec_parse, Container, ContainerSpec, TensorSpec};
use crate::loader::dequant::{dequantize, is_quantized, spec_dequantize, spec_is_quantized, Decoded, DecodedSpec};
use crate::loader::error::{ErrKind, LoaderError};
use crate::loader::plan::{plan_views, spec_contract, spec_plan, spec_plan_one, tensor_contract, PlanSpec};
use crate::loader::template::ChatTemplate;
use crate::loader::tokens::{check_smoke, spec_header, spec_smoke, spec_vocab, tokenizer_data, tokenizer_header};
use crate::text::{dec, push_dec, str_eq, text};

verus! {

/// Token classes from the GGUF spec's token_type array (values 1..=6).
#[derive(Debug, Clone, Copy, PartialEq, Eq, Structural)]
pub enum TokenType {
    Normal,
    Unknown,
    Control,
    UserDefined,
    Unused,
    Byte,
}

/// The class the spec gives the value `v`, if any.
pub open spec fn token_type_of(v: i32) -> Option<TokenType> {
    if v == 1 {
        Some(TokenType::Normal)
    } else if v == 2 {
        Some(TokenType::Unknown)
    } else if v == 3 {
        Some(TokenType::Control)
    } else if v == 4 {
        Some(TokenType::UserDefined)
    } else if v == 5 {
        Some(TokenType::Unused)
    } else if v == 6 {
        Some(TokenType::Byte)
    } else {
        None
    }
}

/// The refusal of a token_type value outside 1..=6.
pub open spec fn token_type_refusal(v: i32) -> Seq<char> {
    if v < 0 {
        "token_type value "@ + "-"@ + dec((-(v as int)) as nat) + " is outside the spec's 1..=6"@
    } else {
        "token_type value "@ + dec(v as nat) + " is outside the spec's 1..=6"@
    }
}

impl TokenType {
    /// The class for a token_type value; values outside 1..=6 refuse.
    pub fn from_i32(v: i32) -> (r: Result<TokenType, LoaderError>)
        ensures
            match token_type_of(v) {
                Some(t) => r == Ok::<TokenType, LoaderError>(t),
                None => r matches Err(e) && e@ == (ErrKind::Structure { reason: token_type_refusal(v) }),
            },
    {
        if v == 1 {
            Ok(TokenType::Normal)
        } else if v == 2 {
            Ok(TokenType::Unknown)
        } else if v == 3 {
            Ok(TokenType::Control)
        } else if v == 4 {
            Ok(TokenType::UserDefined)
        } else if v == 5 {
            Ok(TokenType::Unused)
        } else if v == 6 {
            Ok(TokenType::Byte)
        } else {
            let mut reason = text("token_type value ");
            if v < 0 {
                crate::text::push_str(&mut reason, "-");
                let magnitude: u64 = if v == i32::MIN {
                    2147483648
                } else {
                    (-v) as u64
                };
                push_dec(&mut reason, magnitude);
            } else {
                push_dec(&mut reason, v as u64);
            }
            crate::text::push_str(&mut reason, " is outside the spec's 1..=6");
            Err(LoaderError::Structure { reason })
        }
    }

    /// The class's name, as it prints in messages.
    pub open spec fn spec_name(&self) -> Seq<char> {
        match self {
            TokenType::Normal => "Normal"@,
            TokenType::Unknown => "Unknown"@,
            TokenType::Control => "Control"@,
            TokenType::UserDefined => "UserDefined"@,
            TokenType::Unused => "Unused"@,
            TokenType::Byte => "Byte"@,
        }
    }

    /// The class's name, for messages.
    pub fn name(&self) -> (r: &'static str)
        ensures
            r@ == self.spec_name(),
    {
        match self {
            TokenType::Normal => "Normal",
            TokenType::Unknown => "Unknown",
            TokenType::Control => "Control",
            TokenType::UserDefined => "UserDefined",
            TokenType::Unused => "Unused",
            TokenType::Byte => "Byte",
        }
    }
}

/// What the tokenizer block needs, as plain sequences.
pub ghost struct TokenizerSpec {
    pub tokens: Seq<Seq<char>>,
    pub merges: Seq<(Seq<char>, Seq<char>)>,
    pub token_types: Seq<TokenType>,
    pub pre: Seq<char>,
    pub stop_token_ids: Seq<u32>,
}

/// Everything the tokenizer block needs, as plain vectors. The shape is
/// byte-level BPE generic; the values are the family's. `pre` names which
/// pre-tokenizer regex to build; `stop_token_ids` is the full stop set
/// the loader assembled (the metadata under-reports it).
pub struct TokenizerData {
    pub tokens: Vec<String>,
    pub merges: Vec<(String, String)>,
    pub token_types: Vec<TokenType>,
    pub pre: String,
    pub stop_token_ids: Vec<u32>,
}

pub open spec fn pair_views(m: Seq<(String, String)>) -> Seq<(Seq<char>, Seq<char>)> {
    m.map_values(|p: (String, String)| (p.0@, p.1@))
}

impl View for TokenizerData {
    type V = TokenizerSpec;

    open spec fn view(&self) -> TokenizerSpec {
        TokenizerSpec {
            tokens: crate::loader::vocab::views(self.tokens@),
            merges: pair_views(self.merges@),
            token_types: self.token_types@,
            pre: self.pre@,
            stop_token_ids: self.stop_token_ids@,
        }
    }
}

// ------------------------------------------------------------ tensors

/// A tensor's shape and values, as the border hands them over.
pub ghost struct RawSpec {
    pub shape: Seq<usize>,
    pub values: DecodedSpec,
}

/// One weight tensor: its row-major shape and its values exactly as the
/// file stores them (see `Decoded`).
#[derive(Debug, Clone)]
pub struct RawTensor {
    pub shape: Vec<usize>,
    pub values: Decoded,
}

impl View for RawTensor {
    type V = RawSpec;

    open spec fn view(&self) -> RawSpec {
        RawSpec { shape: self.shape@, values: self.values@ }
    }
}

/// The named tensors, in the order the file lists them.
pub type TensorSeq = Seq<(Seq<char>, RawSpec)>;

/// The tensor under `name`: the first entry that carries it.
pub open spec fn tensor_lookup(s: TensorSeq, name: Seq<char>) -> Option<RawSpec>
    decreases s.len(),
{
    if s.len() == 0 {
        None
    } else if s[0].0 == name {
        Some(s[0].1)
    } else {
        tensor_lookup(s.drop_first(), name)
    }
}

/// The position of the first entry named `name`.
pub open spec fn tensor_position(s: TensorSeq, name: Seq<char>) -> Option<int>
    decreases s.len(),
{
    if s.len() == 0 {
        None
    } else if s[0].0 == name {
        Some(0)
    } else {
        match tensor_position(s.drop_first(), name) {
            Some(i) => Some(i + 1),
            None => None,
        }
    }
}

pub proof fn lemma_tensor_position(s: TensorSeq, name: Seq<char>)
    ensures
        tensor_position(s, name) matches Some(i) ==> 0 <= i < s.len() && s[i].0 == name
            && tensor_lookup(s, name) == Some(s[i].1) && forall|j: int| 0 <= j < i ==> s[j].0 != name,
        tensor_position(s, name) is None ==> tensor_lookup(s, name) is None && forall|j: int|
            0 <= j < s.len() ==> s[j].0 != name,
    decreases s.len(),
{
    if s.len() > 0 {
        lemma_tensor_position(s.drop_first(), name);
        if s[0].0 != name {
            assert forall|j: int| 0 < j < s.len() implies s[j] == s.drop_first()[j - 1] by {}
        }
    }
}

/// The entries after putting `t` under `name`.
/// No name occurs twice: the map's well-formedness, which `new`
/// establishes and `insert` and `remove` keep.
pub open spec fn names_distinct(s: TensorSeq) -> bool {
    forall|i: int, j: int| 0 <= i < j < s.len() ==> s[i].0 != s[j].0
}

pub open spec fn tensor_insert(s: TensorSeq, name: Seq<char>, t: RawSpec) -> TensorSeq {
    match tensor_position(s, name) {
        Some(i) => s.update(i, (name, t)),
        None => s.push((name, t)),
    }
}

/// A read gives back the last write: after putting `t` under `name`, the
/// lookup of `name` finds `t`, and every other name finds what it found
/// before.
pub proof fn lemma_lookup_after_insert(s: TensorSeq, name: Seq<char>, t: RawSpec, other: Seq<char>)
    ensures
        tensor_lookup(tensor_insert(s, name, t), name) == Some(t),
        other != name ==> tensor_lookup(tensor_insert(s, name, t), other) == tensor_lookup(s, other),
{
    let u = tensor_insert(s, name, t);
    lemma_tensor_position(s, name);
    lemma_tensor_position(s, other);
    lemma_tensor_position(u, name);
    lemma_tensor_position(u, other);
    match tensor_position(s, name) {
        Some(i) => {
            assert(u[i].0 == name);
            if let Some(k) = tensor_position(u, name) {
                assert(k == i) by {
                    if k < i {
                        assert(u[k] == s[k]);
                    } else if k > i {
                    }
                }
            }
            if other != name {
                if let Some(k) = tensor_position(s, other) {
                    assert(u[k] == s[k]);
                    if let Some(k2) = tensor_position(u, other) {
                        assert(k2 == k) by {
                            if k2 < k {
                                assert(u[k2] == s[k2] || k2 == i);
                            } else if k2 > k {
                            }
                        }
                    }
                } else {
                    if let Some(k2) = tensor_position(u, other) {
                        if k2 != i {
                            assert(u[k2] == s[k2]);
                        }
                    }
                }
            }
        },
        None => {
            assert(u[s.len() as int] == (name, t));
            if let Some(k) = tensor_position(u, name) {
                if k < s.len() {
                    assert(u[k] == s[k]);
                }
            }
            if other != name {
                if let Some(k) = tensor_position(s, other) {
                    assert(u[k] == s[k]);
                    if let Some(k2) = tensor_position(u, other) {
                        assert(k2 == k) by {
                            if k2 < k {
                                assert(u[k2] == s[k2]);
                            }
                        }
                    }
                } else {
                    if let Some(k2) = tensor_position(u, other) {
                        if k2 < s.len() {
                            assert(u[k2] == s[k2]);
                        }
                    }
                }
            }
        },
    }
}

/// Named tensors; lookups by name find the first entry of that name.
#[derive(Debug, Clone)]
pub struct TensorMap {
    entries: Vec<(String, RawTensor)>,
}

impl View for TensorMap {
    type V = TensorSeq;

    closed spec fn view(&self) -> TensorSeq {
        Seq::new(self.entries@.len(), |i: int| (self.entries@[i].0@, self.entries@[i].1@))
    }
}

impl TensorMap {
    /// An empty map.
    pub fn new() -> (r: TensorMap)
        ensures
            r@ == TensorSeq::empty(),
            names_distinct(r@),
    {
        let r = TensorMap { entries: Vec::new() };
        proof {
            assert(r@ =~= TensorSeq::empty());
        }
        r
    }

    /// Number of entries.
    pub fn len(&self) -> (r: usize)
        ensures
            r == self@.len(),
    {
        self.entries.len()
    }

    /// Whether the map is empty.
    pub fn is_empty(&self) -> (r: bool)
        ensures
            r == (self@.len() == 0),
    {
        self.entries.len() == 0
    }

    fn position(&self, name: &str) -> (r: Option<usize>)
        ensures
            r matches Some(i) ==> tensor_position(self@, name@) == Some(i as int),
            r is None ==> tensor_position(self@, name@) is None,
    {
        proof {
            lemma_tensor_position(self@, name@);
        }
        let mut i: usize = 0;
        while i < self.entries.len()
            invariant
                i <= self@.len(),
                forall|j: int| 0 <= j < i ==> self@[j].0 != name@,
            decreases self.entries.len() - i,
        {
            if str_eq(self.entries[i].0.as_str(), name) {
                proof {
                    lemma_tensor_position(self@, name@);
                    assert(self@[i as int].0 == name@);
                    if tensor_position(self@, name@) is None {
                        assert(self@[i as int].0 != name@);
                    }
                    let k = tensor_position(self@, name@)->Some_0;
                    assert(k == i) by {
                        if k < i {
                        } else if k > i {
                        }
                    }
                }
                return Some(i);
            }
            i = i + 1;
        }
        proof {
            lemma_tensor_position(self@, name@);
            if let Some(k) = tensor_position(self@, name@) {
                assert(self@[k].0 == name@);
            }
        }
        None
    }

    /// Whether some entry is named `name`.
    pub fn contains_key(&self, name: &str) -> (r: bool)
        ensures
            r == (tensor_lookup(self@, name@) is Some),
    {
        proof {
            lemma_tensor_position(self@, name@);
        }
        self.position(name).is_some()
    }

    /// The tensor named `name`.
    pub fn get(&self, name: &str) -> (r: Option<&RawTensor>)
        ensures
            r matches Some(t) ==> tensor_lookup(self@, name@) == Some(t@),
            r is None ==> tensor_lookup(self@, name@) is None,
    {
        proof {
            lemma_tensor_position(self@, name@);
        }
        match self.position(name) {
            Some(i) => Some(&self.entries[i].1),
            None => None,
        }
    }

    /// Take the tensor named `name` out; every other entry stays, in
    /// order.
    pub fn remove(&mut self, name: &str) -> (r: Option<RawTensor>)
        ensures
            r matches Some(t) ==> tensor_lookup(old(self)@, name@) == Some(t@) && final(self)@ == old(
                self,
            )@.remove(tensor_position(old(self)@, name@)->Some_0),
            r is None ==> tensor_lookup(old(self)@, name@) is None && final(self)@ == old(self)@,
            names_distinct(old(self)@) ==> names_distinct(final(self)@),
    {
        proof {
            lemma_tensor_position(self@, name@);
        }
        match self.position(name) {
            Some(i) => {
                let ghost before = self@;
                let (_, t) = self.entries.remove(i);
                proof {
                    assert(self@ =~= before.remove(i as int));
                    if names_distinct(before) {
                        assert forall|a: int, b: int| 0 <= a < b < self@.len() implies self@[a].0
                            != self@[b].0 by {
                            let a2 = if a < i { a } else { a + 1 };
                            let b2 = if b < i { b } else { b + 1 };
                            assert(self@[a] == before[a2]);
                            assert(self@[b] == before[b2]);
                        }
                    }
                }
                Some(t)
            },
            None => None,
        }
    }

    /// Put `t` under `name`: it replaces the first entry of that name, or
    /// goes last. The replaced tensor comes back.
    pub fn insert(&mut self, name: String, t: RawTensor) -> (r: Option<RawTensor>)
        ensures
            final(self)@ == tensor_insert(old(self)@, name@, t@),
            match tensor_lookup(old(self)@, name@) {
                Some(x) => r matches Some(y) && y@ == x,
                None => r is None,
            },
            names_distinct(old(self)@) ==> names_distinct(final(self)@),
    {
        proof {
            lemma_tensor_position(self@, name@);
        }
        let ghost before = self@;
        let ghost tv = t@;
        let ghost nv = name@;
        match self.position(name.as_str()) {
            Some(i) => {
                let (_, old_t) = self.entries.remove(i);
                self.entries.insert(i, (name, t));
                proof {
                    assert(self@ =~= before.update(i as int, (nv, tv)));
                    if names_distinct(before) {
                        assert forall|a: int, b: int| 0 <= a < b < self@.len() implies self@[a].0
                            != self@[b].0 by {
                            assert(before[i as int].0 == nv);
                        }
                    }
                }
                Some(old_t)
            },
            None => {
                self.entries.push((name, t));
                proof {
                    assert(self@ =~= before.push((nv, tv)));
                    if names_distinct(before) {
                        assert forall|a: int, b: int| 0 <= a < b < self@.len() implies self@[a].0
                            != self@[b].0 by {
                            if b == before.len() {
                                assert(before[a].0 != nv);
                            }
                        }
                    }
                }
                None
            },
        }
    }

    fn push_entry(&mut self, name: String, t: RawTensor)
        ensures
            final(self)@ == old(self)@.push((name@, t@)),
    {
        let ghost before = self@;
        let ghost tv = t@;
        let ghost nv = name@;
        self.entries.push((name, t));
        proof {
            assert(self@ =~= before.push((nv, tv)));
        }
    }

    /// The names, in order.
    pub fn names(&self) -> (r: Vec<String>)
        ensures
            crate::loader::vocab::views(r@) == self@.map_values(|e: (Seq<char>, RawSpec)| e.0),
    {
        let mut r: Vec<String> = Vec::with_capacity(self.entries.len());
        let mut i: usize = 0;
        while i < self.entries.len()
            invariant
                i <= self@.len(),
                crate::loader::vocab::views(r@) == self@.map_values(|e: (Seq<char>, RawSpec)| e.0).take(
                    i as int,
                ),
            decreases self.entries.len() - i,
        {
            let ghost before = r@;
            r.push(self.entries[i].0.clone());
            proof {
                assert(crate::loader::vocab::views(r@) =~= crate::loader::vocab::views(before).push(
                    self@[i as int].0,
                ));
                assert(self@.map_values(|e: (Seq<char>, RawSpec)| e.0).take(i + 1) =~= self@.map_values(
                    |e: (Seq<char>, RawSpec)| e.0,
                ).take(i as int).push(self@[i as int].0));
            }
            i = i + 1;
        }
        proof {
            assert(self@.map_values(|e: (Seq<char>, RawSpec)| e.0).take(self@.len() as int) =~= self@.map_values(
                |e: (Seq<char>, RawSpec)| e.0,
            ));
        }
        r
    }
}

// --------------------------------------------------------------- yamf

/// What crosses the border.
pub ghost struct YamfSpec {
    pub family: FamilyConfig,
    pub tensors: TensorSeq,
    pub tokenizer: TokenizerSpec,
    pub template: Seq<char>,
}

/// The border bundle: everything the engine needs, nothing the file
/// wanted to say beyond it.
pub struct Yamf {
    pub family: FamilyConfig,
    pub tensors: TensorMap,
    pub tokenizer: TokenizerData,
    pub chat_template: ChatTemplate,
}

impl View for Yamf {
    type V = YamfSpec;

    open spec fn view(&self) -> YamfSpec {
        YamfSpec {
            family: self.family,
            tensors: self.tensors@,
            tokenizer: self.tokenizer@,
            template: self.chat_template.spec_source(),
        }
    }
}

/// The spec requires `general.quantization_version` whenever some tensor
/// is block-quantized (plain non-f32 floats are not); the block layouts
/// it names are the ones decoded here, version 2.
pub open spec fn spec_quantization(c: ContainerSpec) -> Result<(), ErrKind> {
    if exists|i: int| 0 <= i < c.tensors.len() && spec_is_quantized(#[trigger] c.tensors[i].type_id) {
        match spec_get_u32_exact(c.metadata, "general.quantization_version"@) {
            Err(e) => Err(e),
            Ok(v) => if v != 2 {
                Err(
                    ErrKind::Structure {
                        reason: "quantization_version "@ + dec(v as nat) + "; nucleon supports 2"@,
                    },
                )
            } else {
                Ok(())
            },
        }
    } else {
        Ok(())
    }
}

fn check_quantization(c: &Container) -> (r: Result<(), LoaderError>)
    ensures
        match spec_quantization(c@) {
            Ok(_) => r is Ok,
            Err(e) => r matches Err(x) && x@ == e,
        },
{
    let mut any = false;
    let mut i: usize = 0;
    while i < c.tensors.len()
        invariant
            i <= c.tensors@.len(),
            any == exists|j: int| 0 <= j < i && spec_is_quantized(#[trigger] c@.tensors[j].type_id),
        decreases c.tensors.len() - i,
    {
        proof {
            assert(c@.tensors[i as int] == c.tensors@[i as int]@);
        }
        if is_quantized(c.tensors[i].type_id) {
            proof {
                assert(spec_is_quantized(c@.tensors[i as int].type_id));
            }
            any = true;
        } else {
            proof {
                assert(!spec_is_quantized(c@.tensors[i as int].type_id));
            }
        }
        i = i + 1;
    }
    if any {
        let qv = get_u32_exact(c, "general.quantization_version")?;
        if qv != 2 {
            let mut reason = text("quantization_version ");
            push_dec(&mut reason, qv as u64);
            crate::text::push_str(&mut reason, "; nucleon supports 2");
            return Err(LoaderError::Structure { reason });
        }
    }
    Ok(())
}

/// The third pass: every tensor decoded, in file order; the first
/// refusal wins.
pub open spec fn spec_decode_all(ts: Seq<TensorSpec>, ps: Seq<PlanSpec>, b: Seq<u8>, ds: int) -> Result<
    TensorSeq,
    ErrKind,
>
    decreases ts.len(),
{
    if ts.len() == 0 {
        Ok(TensorSeq::empty())
    } else {
        match spec_decode_all(ts.drop_last(), ps, b, ds) {
            Err(e) => Err(e),
            Ok(p) => {
                let t = ts.last();
                let q = ps[ts.len() - 1];
                let start = ds + t.offset;
                match spec_dequantize(
                    t.type_id,
                    b.subrange(start, start + q.byte_len),
                    q.n_elems as usize,
                    t.dims[0],
                    t.name,
                ) {
                    Err(e) => Err(e),
                    Ok(d) => Ok(p.push((t.name, RawSpec { shape: q.shape, values: d }))),
                }
            },
        }
    }
}

/// The whole loader over in-memory bytes. Passes are ordered cheap to
/// expensive: the container, the family config, the quantization
/// version, the tokenizer metadata and template (with the render smoke
/// test), then the tensor contract, then decoding. A refusal never costs
/// the weights' allocation first.
pub open spec fn spec_gate(b: Seq<u8>) -> Result<YamfSpec, ErrKind> {
    match spec_parse(b) {
        Err(e) => Err(e),
        Ok(c) => match spec_family_config(c.metadata) {
            Err(e) => Err(e),
            Ok(family) => {
                let cfg = match family {
                    FamilyConfig::Qwen3(q) => q,
                };
                match spec_quantization(c) {
                    Err(e) => Err(e),
                    Ok(_) => match spec_header(c.metadata) {
                        Err(e) => Err(e),
                        Ok(h) => match spec_vocab(c.metadata, h.pre, h.eos, h.template) {
                            Err(e) => Err(e),
                            Ok(tok) => match spec_smoke(h.template) {
                                Err(e) => Err(e),
                                Ok(_) => match spec_contract(cfg, c, b) {
                                    Err(e) => Err(e),
                                    Ok(ps) => match spec_decode_all(c.tensors, ps, b, c.data_start) {
                                        Err(e) => Err(e),
                                        Ok(tensors) => Ok(
                                            YamfSpec {
                                                family,
                                                tensors,
                                                tokenizer: tok,
                                                template: h.template,
                                            },
                                        ),
                                    },
                                },
                            },
                        },
                    },
                }
            },
        },
    }
}

proof fn lemma_decode_prefix(ts: Seq<TensorSpec>, ps: Seq<PlanSpec>, b: Seq<u8>, ds: int, k: int)
    requires
        0 <= k <= ts.len(),
        spec_decode_all(ts.take(k), ps, b, ds) is Err,
    ensures
        spec_decode_all(ts, ps, b, ds) == spec_decode_all(ts.take(k), ps, b, ds),
    decreases ts.len() - k,
{
    if k < ts.len() {
        assert(ts.take(k + 1).drop_last() =~= ts.take(k));
        lemma_decode_prefix(ts, ps, b, ds, k + 1);
    } else {
        assert(ts.take(k) =~= ts);
    }
}

/// Decode every planned tensor out of the file bytes.
fn decode_all(c: &Container, plans: &Vec<(Vec<usize>, u64, u64)>, bytes: &[u8]) -> (r: Result<
    TensorMap,
    LoaderError,
>)
    requires
        c.file_len == bytes@.len(),
        c.data_start <= c.file_len,
        plans@.len() == c.tensors@.len(),
        forall|i: int|
            0 <= i < plans@.len() ==> c.tensors@[i].offset + (#[trigger] plans@[i]).2 <= c.file_len
                - c.data_start && plans@[i].1 <= plans@[i].2 && 1 <= c.tensors@[i].dims@.len(),
    ensures
        match spec_decode_all(c@.tensors, plan_views(plans@), bytes@, c.data_start as int) {
            Ok(t) => r matches Ok(m) && m@ == t,
            Err(e) => r matches Err(x) && x@ == e,
        },
{
    let ghost ts = c@.tensors;
    let ghost ps = plan_views(plans@);
    let mut out = TensorMap::new();
    proof {
        assert(ts.take(0) =~= Seq::<TensorSpec>::empty());
    }
    let mut i: usize = 0;
    while i < c.tensors.len()
        invariant
            ts == c@.tensors,
            ps == plan_views(plans@),
            plans@.len() == c.tensors@.len(),
            c.file_len == bytes@.len(),
            c.data_start <= c.file_len,
            forall|k: int|
                0 <= k < plans@.len() ==> c.tensors@[k].offset + (#[trigger] plans@[k]).2 <= c.file_len
                    - c.data_start && plans@[k].1 <= plans@[k].2 && 1 <= c.tensors@[k].dims@.len(),
            i <= ts.len(),
            spec_decode_all(ts.take(i as int), ps, bytes@, c.data_start as int) == Ok::<
                TensorSeq,
                ErrKind,
            >(out@),
        decreases c.tensors.len() - i,
    {
        let t = &c.tensors[i];
        let shape = crate::loader::plan::copy_usizes(&plans[i].0);
        let n = plans[i].1;
        let byte_len = plans[i].2;
        proof {
            assert(ts[i as int] == t@);
            assert(ts.take(i + 1).drop_last() =~= ts.take(i as int));
            assert(ts.take(i + 1).last() == t@);
            assert(ts.take(i + 1).len() - 1 == i);
            assert(ps[i as int].shape == shape@);
        }
        let start = c.data_start + t.offset as usize;
        let end = start + byte_len as usize;
        let piece = &bytes[start..end];
        proof {
            assert(piece@ == bytes@.subrange(
                c.data_start + t.offset,
                c.data_start + t.offset + ps[i as int].byte_len,
            ));
        }
        let values = match dequantize(t.type_id, piece, n as usize, t.dims[0], t.name.as_str()) {
            Ok(v) => v,
            Err(e) => {
                proof {
                    lemma_decode_prefix(ts, ps, bytes@, c.data_start as int, i + 1);
                }
                return Err(e);
            },
        };
        let ghost before = out@;
        out.push_entry(t.name.clone(), RawTensor { shape, values });
        i = i + 1;
    }
    proof {
        assert(ts.take(ts.len() as int) =~= ts);
    }
    Ok(out)
}

/// Load a model through the loader, from the file's bytes: a complete
/// `Yamf`, or the refusal of the first rule the file breaks.
pub fn load_bytes(bytes: &[u8]) -> (r: Result<Yamf, LoaderError>)
    ensures
        match spec_gate(bytes@) {
            Ok(y) => r matches Ok(x) && x@ == y,
            Err(e) => r matches Err(x) && x@ == e,
        },
        r matches Ok(y) ==> hands_over_expected(y@),
        r matches Ok(y) ==> tokenizer_handed_over(y.tokenizer@),
{
    let container = parse(bytes)?;
    let family = family_config(&container)?;
    let cfg = match family {
        FamilyConfig::Qwen3(q) => q,
    };
    check_quantization(&container)?;
    // ---- pass 1: tokenizer metadata and the template
    let (pre, eos, chat_template) = tokenizer_header(&container)?;
    let tokenizer = tokenizer_data(&container, pre, eos, &chat_template)?;
    check_smoke(&chat_template)?;
    // ---- pass 2: the tensor contract, still no weight allocation
    let plans = tensor_contract(&cfg, &container, bytes)?;
    proof {
        crate::loader::plan::lemma_contract_facts(cfg, container@, bytes@);
        assert forall|i: int|
            0 <= i < plans@.len() implies container.tensors@[i].offset + (#[trigger] plans@[i]).2
                <= container.file_len - container.data_start && plans@[i].1 <= plans@[i].2 && 1
                <= container.tensors@[i].dims@.len() by {
            assert(container@.tensors[i] == container.tensors@[i]@);
            assert(plan_views(plans@)[i].byte_len == plans@[i].2);
        }
    }
    // ---- pass 3: everything validated; now materialize the weights
    let tensors = decode_all(&container, &plans, bytes)?;
    proof {
        lemma_loaded_tensors(bytes@);
        lemma_loaded_tokenizer(bytes@);
    }
    Ok(Yamf { family, tensors, tokenizer, chat_template })
}

impl RawTensor {
    /// A copy of this tensor.
    pub fn duplicate(&self) -> (r: RawTensor)
        ensures
            r@ == self@,
    {
        RawTensor { shape: crate::loader::plan::copy_usizes(&self.shape), values: self.values.duplicate() }
    }
}

proof fn lemma_decode_all_items(ts: Seq<TensorSpec>, ps: Seq<PlanSpec>, b: Seq<u8>, ds: int)
    requires
        spec_decode_all(ts, ps, b, ds) is Ok,
    ensures
        spec_decode_all(ts, ps, b, ds)->Ok_0.len() == ts.len(),
        forall|j: int|
            0 <= j < ts.len() ==> {
                let e = #[trigger] spec_decode_all(ts, ps, b, ds)->Ok_0[j];
                let t = ts[j];
                let q = ps[j];
                &&& e.0 == t.name
                &&& e.1.shape == q.shape
                &&& spec_dequantize(
                    t.type_id,
                    b.subrange(ds + t.offset, ds + t.offset + q.byte_len),
                    q.n_elems as usize,
                    t.dims[0],
                    t.name,
                ) == Ok::<DecodedSpec, ErrKind>(e.1.values)
            },
    decreases ts.len(),
{
    if ts.len() > 0 {
        lemma_decode_all_items(ts.drop_last(), ps, b, ds);
        let out = spec_decode_all(ts, ps, b, ds)->Ok_0;
        let prev = spec_decode_all(ts.drop_last(), ps, b, ds)->Ok_0;
        assert forall|j: int| 0 <= j < ts.len() implies {
            let e = #[trigger] out[j];
            let t = ts[j];
            let q = ps[j];
            &&& e.0 == t.name
            &&& e.1.shape == q.shape
            &&& spec_dequantize(
                t.type_id,
                b.subrange(ds + t.offset, ds + t.offset + q.byte_len),
                q.n_elems as usize,
                t.dims[0],
                t.name,
            ) == Ok::<DecodedSpec, ErrKind>(e.1.values)
        } by {
            if j < ts.len() - 1 {
                assert(out[j] == prev[j]);
                assert(ts.drop_last()[j] == ts[j]);
            }
        }
    }
}

/// What the loader hands over is what the family expects: head rows fit a
/// `u32`, every tensor carries a name of the expected set (or the optional
/// untied head) with exactly the expected row-major shape, no name occurs
/// twice, no expected name is missing, and every tensor holds exactly as
/// many values as its shape describes.
pub open spec fn hands_over_expected(y: YamfSpec) -> bool {
    let cfg = match y.family {
        FamilyConfig::Qwen3(q) => q,
    };
    &&& cfg.num_attention_heads * cfg.head_dim <= u32::MAX
    &&& cfg.num_key_value_heads * cfg.head_dim <= u32::MAX
    &&& forall|j: int|
        0 <= j < y.tensors.len() ==> {
            let e = #[trigger] y.tensors[j];
            &&& crate::loader::plan::expected_shape(cfg, e.0) == Some(e.1.shape)
            &&& crate::loader::dequant::decoded_len(e.1.values) == crate::tensor::shape_product(
                e.1.shape,
            )
        }
    &&& forall|j1: int, j2: int|
        0 <= j1 < j2 < y.tensors.len() ==> (#[trigger] y.tensors[j1]).0 != (
        #[trigger] y.tensors[j2]).0
    &&& forall|name: Seq<char>|
        crate::loader::plan::entry_names(crate::loader::plan::expected_entries(cfg)).contains(name)
            ==> exists|j: int| 0 <= j < y.tensors.len() && #[trigger] y.tensors[j].0 == name
}

proof fn lemma_loaded_tensors(b: Seq<u8>)
    requires
        b.len() <= usize::MAX,
        spec_gate(b) is Ok,
        spec_parse(b)->Ok_0.data_start >= 0,
    ensures
        hands_over_expected(spec_gate(b)->Ok_0),
{
    let c = spec_parse(b)->Ok_0;
    crate::loader::container::lemma_parse_ok_wf(b);
    let family = spec_family_config(c.metadata)->Ok_0;
    let cfg = match family {
        FamilyConfig::Qwen3(q) => q,
    };
    let h = spec_header(c.metadata)->Ok_0;
    let ps = spec_contract(cfg, c, b)->Ok_0;
    crate::loader::plan::lemma_contract_facts(cfg, c, b);
    lemma_decode_all_items(c.tensors, ps, b, c.data_start);
    let y = spec_gate(b)->Ok_0;
    let ts = c.tensors;
    assert(c.data_start >= 0);
    assert(y.family == family);
    assert(y.tensors == spec_decode_all(ts, ps, b, c.data_start)->Ok_0);
    assert forall|j: int| 0 <= j < y.tensors.len() implies {
        let e = #[trigger] y.tensors[j];
        &&& crate::loader::plan::expected_shape(cfg, e.0) == Some(e.1.shape)
        &&& crate::loader::dequant::decoded_len(e.1.values) == crate::tensor::shape_product(e.1.shape)
    } by {
        let t = ts[j];
        let q = ps[j];
        assert(q.n_elems <= q.byte_len);
        assert(q.n_elems as usize == q.n_elems);
        crate::loader::dequant::lemma_dequantize_len(
            t.type_id,
            b.subrange(c.data_start + t.offset, c.data_start + t.offset + q.byte_len),
            q.n_elems as usize,
            t.dims[0],
            t.name,
        );
        crate::loader::plan::lemma_product_reversed(t.dims);
    }
    assert forall|name: Seq<char>|
        crate::loader::plan::entry_names(crate::loader::plan::expected_entries(cfg)).contains(
            name,
        ) implies exists|j: int| 0 <= j < y.tensors.len() && #[trigger] y.tensors[j].0 == name by {
        assert(!crate::loader::plan::is_missing(cfg, ts, name));
        let j = choose|j: int|
            0 <= j < crate::loader::container::tensor_names(ts).len()
                && crate::loader::container::tensor_names(ts)[j] == name;
        assert(y.tensors[j].0 == name);
    }
}

/// What the loader hands the tokenizer: ids fit `u32`, parallel token and
/// class arrays, no token twice, no merge twice, and the qwen2
/// pre-tokenizer.
pub open spec fn tokenizer_handed_over(t: TokenizerSpec) -> bool {
    &&& t.tokens.len() <= u32::MAX
    &&& t.tokens.len() == t.token_types.len()
    &&& crate::loader::vocab::distinct(t.tokens)
    &&& crate::loader::vocab::distinct(t.merges)
    &&& t.pre == "qwen2"@
}

proof fn lemma_strs_len(items: Seq<crate::loader::container::MetaSpec>)
    requires
        crate::loader::tokens::strs_of(items) is Ok,
    ensures
        crate::loader::tokens::strs_of(items)->Ok_0.len() == items.len(),
    decreases items.len(),
{
    if items.len() > 0 {
        lemma_strs_len(items.drop_last());
    }
}

proof fn lemma_loaded_tokenizer(b: Seq<u8>)
    requires
        spec_gate(b) is Ok,
    ensures
        tokenizer_handed_over(spec_gate(b)->Ok_0.tokenizer),
{
    let c = spec_parse(b)->Ok_0;
    let kvs = c.metadata;
    let h = spec_header(kvs)->Ok_0;
    let t = spec_gate(b)->Ok_0.tokenizer;
    assert(t == spec_vocab(kvs, h.pre, h.eos, h.template)->Ok_0);
    let tokens = crate::loader::tokens::spec_str_array(kvs, "tokenizer.ggml.tokens"@)->Ok_0;
    let ms = crate::loader::tokens::spec_str_array(kvs, "tokenizer.ggml.merges"@)->Ok_0;
    assert(t.tokens == tokens);
    // the token count is the one the config checked against u32
    match crate::loader::container::lookup(kvs, "tokenizer.ggml.tokens"@) {
        Some(crate::loader::container::MetaSpec::Array { elem_type_id, items }) => {
            lemma_strs_len(items);
            assert(crate::loader::config::spec_vocab_size(kvs) is Ok);
        },
        _ => {},
    }
    assert(crate::loader::tokens::merges_ok(ms));
    assert forall|k1: int, k2: int| 0 <= k1 < k2 < t.merges.len() implies t.merges[k1]
        != t.merges[k2] by {
        assert(t.merges[k1] == crate::loader::tokens::merge_pair(ms[k1]));
        assert(t.merges[k2] == crate::loader::tokens::merge_pair(ms[k2]));
    }
}

} // verus!
