//! Metadata keys to `Qwen3Config`.
//!
//! Typed values read by key name. Missing key, wrong type, or a foreign
//! `general.architecture` each refuse with a named error. The result
//! reaches the engine wrapped in `FamilyConfig`, the one family-specific
//! corner of the Yamf.

use vstd::prelude::*;

use crate::loader::container::{kind_name, lookup, Container, KvSpec, MetaSpec, MetaValue};
use crate::loader::error::{ErrKind, LoaderError};
use crate::text::{dec, echo, echo_text, push_dec, push_str, text};

verus! {

/// The typed twin of the config keys the qwen3 family needs. One field
/// per GGUF metadata key. The two float knobs hold their f32 bit
/// patterns (`f32::from_bits` gives the number), exactly as the file
/// stores them.
#[derive(Debug, Clone, Copy, PartialEq, Eq)]
pub struct Qwen3Config {
    /// qwen3.block_count
    pub num_hidden_layers: u32,
    /// qwen3.embedding_length
    pub hidden_size: u32,
    /// qwen3.feed_forward_length
    pub intermediate_size: u32,
    /// qwen3.attention.head_count
    pub num_attention_heads: u32,
    /// qwen3.attention.head_count_kv
    pub num_key_value_heads: u32,
    /// qwen3.attention.key_length
    pub head_dim: u32,
    /// qwen3.attention.layer_norm_rms_epsilon, as f32 bits
    pub rms_norm_eps: u32,
    /// qwen3.rope.freq_base, as f32 bits
    pub rope_theta: u32,
    /// qwen3.context_length
    pub max_position_embeddings: u32,
    /// the tokens array's length (no key exists)
    pub vocab_size: u32,
}

/// The family tag: which family's numbers the Yamf carries.
#[derive(Debug, Clone, Copy, PartialEq, Eq)]
pub enum FamilyConfig {
    Qwen3(Qwen3Config),
}

/// The value under `key`, or the refusal naming the missing key.
pub open spec fn spec_get(kvs: KvSpec, key: Seq<char>) -> Result<MetaSpec, ErrKind> {
    match lookup(kvs, key) {
        Some(v) => Ok(v),
        None => Err(ErrKind::MissingKey { key }),
    }
}

pub open spec fn wrong_type(key: Seq<char>, want: Seq<char>, found: MetaSpec) -> ErrKind {
    ErrKind::WrongType { key, want, found: kind_name(found) }
}

/// A count or length key: a `u32`, or a `u64` that fits one.
pub open spec fn spec_get_u32(kvs: KvSpec, key: Seq<char>) -> Result<u32, ErrKind> {
    match spec_get(kvs, key) {
        Err(e) => Err(e),
        Ok(MetaSpec::U32(v)) => Ok(v),
        Ok(MetaSpec::U64(v)) => if v <= u32::MAX {
            Ok(v as u32)
        } else {
            Err(
                ErrKind::Structure {
                    reason: "key \""@ + key + "\" value "@ + dec(v as nat) + " exceeds u32"@,
                },
            )
        },
        Ok(other) => Err(wrong_type(key, "u32"@, other)),
    }
}

/// A key the spec fixes at exactly `u32`.
pub open spec fn spec_get_u32_exact(kvs: KvSpec, key: Seq<char>) -> Result<u32, ErrKind> {
    match spec_get(kvs, key) {
        Err(e) => Err(e),
        Ok(MetaSpec::U32(v)) => Ok(v),
        Ok(other) => Err(wrong_type(key, "u32"@, other)),
    }
}

/// An `f32` key, as its bit pattern.
pub open spec fn spec_get_f32(kvs: KvSpec, key: Seq<char>) -> Result<u32, ErrKind> {
    match spec_get(kvs, key) {
        Err(e) => Err(e),
        Ok(MetaSpec::F32(v)) => Ok(v),
        Ok(other) => Err(wrong_type(key, "f32"@, other)),
    }
}

/// A string key.
pub open spec fn spec_get_str(kvs: KvSpec, key: Seq<char>) -> Result<Seq<char>, ErrKind> {
    match spec_get(kvs, key) {
        Err(e) => Err(e),
        Ok(MetaSpec::Str(v)) => Ok(v),
        Ok(other) => Err(wrong_type(key, "string"@, other)),
    }
}

pub(crate) fn get<'c>(c: &'c Container, key: &'static str) -> (r: Result<&'c MetaValue, LoaderError>)
    ensures
        match spec_get(c.metadata@, key@) {
            Ok(v) => r matches Ok(x) && x@ == v,
            Err(e) => r matches Err(x) && x@ == e,
        },
{
    match c.metadata.get(key) {
        Some(v) => Ok(v),
        None => Err(LoaderError::MissingKey { key }),
    }
}

pub(crate) fn get_u32(c: &Container, key: &'static str) -> (r: Result<u32, LoaderError>)
    ensures
        match spec_get_u32(c.metadata@, key@) {
            Ok(v) => r == Ok::<u32, LoaderError>(v),
            Err(e) => r matches Err(x) && x@ == e,
        },
{
    match get(c, key)? {
        MetaValue::U32(v) => Ok(*v),
        // the spec's standardized count/length keys may be written as
        // u64; accept them when the value fits
        MetaValue::U64(v) => {
            if *v <= u32::MAX as u64 {
                Ok(*v as u32)
            } else {
                let mut reason = text("key \"");
                push_str(&mut reason, key);
                push_str(&mut reason, "\" value ");
                push_dec(&mut reason, *v);
                push_str(&mut reason, " exceeds u32");
                Err(LoaderError::Structure { reason })
            }
        },
        other => Err(LoaderError::WrongType { key: text(key), want: "u32", found: other.kind() }),
    }
}

pub(crate) fn get_f32(c: &Container, key: &'static str) -> (r: Result<u32, LoaderError>)
    ensures
        match spec_get_f32(c.metadata@, key@) {
            Ok(v) => r == Ok::<u32, LoaderError>(v),
            Err(e) => r matches Err(x) && x@ == e,
        },
{
    match get(c, key)? {
        MetaValue::F32(v) => Ok(*v),
        other => Err(LoaderError::WrongType { key: text(key), want: "f32", found: other.kind() }),
    }
}

/// For keys the spec fixes at exactly u32 (quantization_version,
/// eos_token_id): no u64 leniency.
pub(crate) fn get_u32_exact(c: &Container, key: &'static str) -> (r: Result<u32, LoaderError>)
    ensures
        match spec_get_u32_exact(c.metadata@, key@) {
            Ok(v) => r == Ok::<u32, LoaderError>(v),
            Err(e) => r matches Err(x) && x@ == e,
        },
{
    match get(c, key)? {
        MetaValue::U32(v) => Ok(*v),
        other => Err(LoaderError::WrongType { key: text(key), want: "u32", found: other.kind() }),
    }
}

pub(crate) fn get_str<'c>(c: &'c Container, key: &'static str) -> (r: Result<&'c str, LoaderError>)
    ensures
        match spec_get_str(c.metadata@, key@) {
            Ok(v) => r matches Ok(x) && x@ == v,
            Err(e) => r matches Err(x) && x@ == e,
        },
{
    match get(c, key)? {
        MetaValue::Str(v) => Ok(v.as_str()),
        other => Err(
            LoaderError::WrongType { key: text(key), want: "string", found: other.kind() },
        ),
    }
}

/// A positive, finite f32, told from its bit pattern: sign clear, not
/// zero, exponent not all ones.
pub open spec fn positive_finite_bits(bits: u32) -> bool {
    0 < bits < 0x7F80_0000
}

/// The vocabulary size: the length of the tokens array.
pub open spec fn spec_vocab_size(kvs: KvSpec) -> Result<u32, ErrKind> {
    match spec_get(kvs, "tokenizer.ggml.tokens"@) {
        Err(e) => Err(e),
        Ok(MetaSpec::Array { items, .. }) => if items.len() <= u32::MAX {
            Ok(items.len() as u32)
        } else {
            Err(
                ErrKind::Structure {
                    reason: "tokens array length "@ + dec(items.len()) + " exceeds u32"@,
                },
            )
        },
        Ok(other) => Err(wrong_type("tokenizer.ggml.tokens"@, "array"@, other)),
    }
}

/// The sanity rules every config must meet.
pub open spec fn spec_check_config(cfg: Qwen3Config, value_length: u32) -> bool {
    &&& value_length == cfg.head_dim
    &&& 1 <= cfg.num_hidden_layers <= 10_000
    &&& 1 <= cfg.hidden_size <= 1_000_000
    &&& 1 <= cfg.intermediate_size <= 1_000_000
    &&& 1 <= cfg.num_attention_heads <= 1_000_000
    &&& 1 <= cfg.num_key_value_heads <= 1_000_000
    &&& 1 <= cfg.head_dim <= 1_000_000
    &&& positive_finite_bits(cfg.rms_norm_eps)
    &&& positive_finite_bits(cfg.rope_theta)
    &&& 1 <= cfg.max_position_embeddings <= 100_000_000
    &&& cfg.num_attention_heads * cfg.head_dim <= u32::MAX
    &&& cfg.num_key_value_heads * cfg.head_dim <= u32::MAX
    &&& cfg.head_dim % 2 == 0
    &&& cfg.num_attention_heads % cfg.num_key_value_heads == 0
}

/// The context length is a free choice within 1..=100000000: given a
/// config the rules accept, every context length in that range is
/// accepted with everything else unchanged, and none outside it is.
pub proof fn lemma_context_length_range(cfg: Qwen3Config, value_length: u32, context: u32)
    requires
        spec_check_config(cfg, value_length),
    ensures
        spec_check_config(Qwen3Config { max_position_embeddings: context, ..cfg }, value_length)
            <==> 1 <= context <= 100_000_000,
{
}

/// The refusal of a number outside its range.
pub open spec fn range_message(name: Seq<char>, v: u32, range: Seq<char>) -> Seq<char> {
    name + " "@ + dec(v as nat) + " is outside "@ + range
}

/// The refusal of a float setting that is not finite and positive.
pub open spec fn float_message(name: Seq<char>) -> Seq<char> {
    "qwen3 "@ + name + " must be finite and positive"@
}

/// Why a config breaks the sanity rules: the first rule it breaks, in
/// the order they are checked.
pub open spec fn config_refusal(cfg: Qwen3Config, value_length: u32) -> Seq<char> {
    if value_length != cfg.head_dim {
        "value_length "@ + dec(value_length as nat) + " != key_length "@ + dec(cfg.head_dim as nat)
            + "; nucleon's attention needs them equal"@
    } else if !(1 <= cfg.num_hidden_layers <= 10_000) {
        range_message("block_count"@, cfg.num_hidden_layers, "1..=10000"@)
    } else if !(1 <= cfg.hidden_size <= 1_000_000) {
        range_message("qwen3 embedding_length"@, cfg.hidden_size, "1..=1000000"@)
    } else if !(1 <= cfg.intermediate_size <= 1_000_000) {
        range_message("qwen3 feed_forward_length"@, cfg.intermediate_size, "1..=1000000"@)
    } else if !(1 <= cfg.num_attention_heads <= 1_000_000) {
        range_message("qwen3 head_count"@, cfg.num_attention_heads, "1..=1000000"@)
    } else if !(1 <= cfg.num_key_value_heads <= 1_000_000) {
        range_message("qwen3 head_count_kv"@, cfg.num_key_value_heads, "1..=1000000"@)
    } else if !(1 <= cfg.head_dim <= 1_000_000) {
        range_message("qwen3 key_length"@, cfg.head_dim, "1..=1000000"@)
    } else if !positive_finite_bits(cfg.rms_norm_eps) {
        float_message("layer_norm_rms_epsilon"@)
    } else if !positive_finite_bits(cfg.rope_theta) {
        float_message("rope.freq_base"@)
    } else if !(1 <= cfg.max_position_embeddings <= 100_000_000) {
        range_message("context_length"@, cfg.max_position_embeddings, "1..=100000000"@)
    } else if cfg.num_attention_heads * cfg.head_dim > u32::MAX || cfg.num_key_value_heads
        * cfg.head_dim > u32::MAX {
        "head_count x head_dim overflows u32"@
    } else if cfg.head_dim % 2 != 0 {
        "key_length "@ + dec(cfg.head_dim as nat) + " must be even (RoPE pairs)"@
    } else {
        "head_count "@ + dec(cfg.num_attention_heads as nat)
            + " does not divide evenly over head_count_kv "@ + dec(cfg.num_key_value_heads as nat)
            + " (GQA)"@
    }
}

/// Every config field, in the order the keys are read.
pub open spec fn spec_config_fields(kvs: KvSpec, vocab_size: u32) -> Result<Qwen3Config, ErrKind> {
    match spec_get_u32(kvs, "qwen3.block_count"@) {
        Err(e) => Err(e),
        Ok(layers) => match spec_get_u32(kvs, "qwen3.embedding_length"@) {
            Err(e) => Err(e),
            Ok(hidden) => match spec_get_u32(kvs, "qwen3.feed_forward_length"@) {
                Err(e) => Err(e),
                Ok(ffn) => match spec_get_u32(kvs, "qwen3.attention.head_count"@) {
                    Err(e) => Err(e),
                    Ok(heads) => match spec_get_u32(kvs, "qwen3.attention.head_count_kv"@) {
                        Err(e) => Err(e),
                        Ok(kv_heads) => match spec_get_u32(kvs, "qwen3.attention.key_length"@) {
                            Err(e) => Err(e),
                            Ok(head_dim) => match spec_get_f32(
                                kvs,
                                "qwen3.attention.layer_norm_rms_epsilon"@,
                            ) {
                                Err(e) => Err(e),
                                Ok(eps) => match spec_get_f32(kvs, "qwen3.rope.freq_base"@) {
                                    Err(e) => Err(e),
                                    Ok(theta) => match spec_get_u32(
                                        kvs,
                                        "qwen3.context_length"@,
                                    ) {
                                        Err(e) => Err(e),
                                        Ok(ctx) => Ok(
                                            Qwen3Config {
                                                num_hidden_layers: layers,
                                                hidden_size: hidden,
                                                intermediate_size: ffn,
                                                num_attention_heads: heads,
                                                num_key_value_heads: kv_heads,
                                                head_dim,
                                                rms_norm_eps: eps,
                                                rope_theta: theta,
                                                max_position_embeddings: ctx,
                                                vocab_size,
                                            },
                                        ),
                                    },
                                },
                            },
                        },
                    },
                },
            },
        },
    }
}

/// The family config the metadata describes.
pub open spec fn spec_family_config(kvs: KvSpec) -> Result<FamilyConfig, ErrKind> {
    match spec_get_str(kvs, "general.architecture"@) {
        Err(e) => Err(e),
        Ok(arch) => if arch != "qwen3"@ {
            Err(ErrKind::UnsupportedArchitecture { found: echo_text(arch) })
        } else {
            match spec_vocab_size(kvs) {
                Err(e) => Err(e),
                Ok(vocab) => match spec_config_fields(kvs, vocab) {
                    Err(e) => Err(e),
                    Ok(cfg) => match spec_get_u32(kvs, "qwen3.attention.value_length"@) {
                        Err(e) => Err(e),
                        Ok(vl) => if spec_check_config(cfg, vl) {
                            Ok(FamilyConfig::Qwen3(cfg))
                        } else {
                            Err(ErrKind::Structure { reason: config_refusal(cfg, vl) })
                        },
                    },
                },
            }
        },
    }
}

fn vocab_size(c: &Container) -> (r: Result<u32, LoaderError>)
    ensures
        match spec_vocab_size(c.metadata@) {
            Ok(v) => r == Ok::<u32, LoaderError>(v),
            Err(e) => r matches Err(x) && x@ == e,
        },
{
    // There is no vocab_size key; the tokens array's length is it.
    match get(c, "tokenizer.ggml.tokens")? {
        MetaValue::Array { items, .. } => {
            proof {
                crate::loader::container::lemma_meta_models(items@);
            }
            if items.len() as u64 <= u32::MAX as u64 {
                Ok(items.len() as u32)
            } else {
                let mut reason = text("tokens array length ");
                push_dec(&mut reason, items.len() as u64);
                push_str(&mut reason, " exceeds u32");
                Err(LoaderError::Structure { reason })
            }
        },
        other => Err(
            LoaderError::WrongType {
                key: text("tokenizer.ggml.tokens"),
                want: "array",
                found: other.kind(),
            },
        ),
    }
}

fn config_fields(c: &Container, vocab_size: u32) -> (r: Result<Qwen3Config, LoaderError>)
    ensures
        match spec_config_fields(c.metadata@, vocab_size) {
            Ok(v) => r == Ok::<Qwen3Config, LoaderError>(v),
            Err(e) => r matches Err(x) && x@ == e,
        },
{
    let num_hidden_layers = get_u32(c, "qwen3.block_count")?;
    let hidden_size = get_u32(c, "qwen3.embedding_length")?;
    let intermediate_size = get_u32(c, "qwen3.feed_forward_length")?;
    let num_attention_heads = get_u32(c, "qwen3.attention.head_count")?;
    let num_key_value_heads = get_u32(c, "qwen3.attention.head_count_kv")?;
    let head_dim = get_u32(c, "qwen3.attention.key_length")?;
    let rms_norm_eps = get_f32(c, "qwen3.attention.layer_norm_rms_epsilon")?;
    let rope_theta = get_f32(c, "qwen3.rope.freq_base")?;
    let max_position_embeddings = get_u32(c, "qwen3.context_length")?;
    Ok(
        Qwen3Config {
            num_hidden_layers,
            hidden_size,
            intermediate_size,
            num_attention_heads,
            num_key_value_heads,
            head_dim,
            rms_norm_eps,
            rope_theta,
            max_position_embeddings,
            vocab_size,
        },
    )
}

fn out_of_range(name: &str, v: u32, range: &str) -> (e: LoaderError)
    ensures
        e@ == (ErrKind::Structure { reason: range_message(name@, v, range@) }),
{
    let mut reason = text(name);
    push_str(&mut reason, " ");
    push_dec(&mut reason, v as u64);
    push_str(&mut reason, " is outside ");
    push_str(&mut reason, range);
    LoaderError::Structure { reason }
}

fn not_positive_finite(name: &str) -> (e: LoaderError)
    ensures
        e@ == (ErrKind::Structure { reason: float_message(name@) }),
{
    let mut reason = text("qwen3 ");
    push_str(&mut reason, name);
    push_str(&mut reason, " must be finite and positive");
    LoaderError::Structure { reason }
}

/// File-driven numbers get sanity caps so later arithmetic (expected
/// shapes, cache sizing) cannot overflow or explode.
fn check_config(cfg: &Qwen3Config, value_length: u32) -> (r: Result<(), LoaderError>)
    ensures
        spec_check_config(*cfg, value_length) ==> r is Ok,
        !spec_check_config(*cfg, value_length) ==> (r matches Err(x) && x@ == (ErrKind::Structure {
            reason: config_refusal(*cfg, value_length),
        })),
{
    // Our attention op computes k and v at one head_dim, so the two
    // must agree; a family where they differ is refused, not misread.
    if value_length != cfg.head_dim {
        let mut reason = text("value_length ");
        push_dec(&mut reason, value_length as u64);
        push_str(&mut reason, " != key_length ");
        push_dec(&mut reason, cfg.head_dim as u64);
        push_str(&mut reason, "; nucleon's attention needs them equal");
        return Err(LoaderError::Structure { reason });
    }
    if cfg.num_hidden_layers == 0 || cfg.num_hidden_layers > 10_000 {
        return Err(out_of_range("block_count", cfg.num_hidden_layers, "1..=10000"));
    }
    if cfg.hidden_size == 0 || cfg.hidden_size > 1_000_000 {
        return Err(out_of_range("qwen3 embedding_length", cfg.hidden_size, "1..=1000000"));
    }
    if cfg.intermediate_size == 0 || cfg.intermediate_size > 1_000_000 {
        return Err(
            out_of_range("qwen3 feed_forward_length", cfg.intermediate_size, "1..=1000000"),
        );
    }
    if cfg.num_attention_heads == 0 || cfg.num_attention_heads > 1_000_000 {
        return Err(out_of_range("qwen3 head_count", cfg.num_attention_heads, "1..=1000000"));
    }
    if cfg.num_key_value_heads == 0 || cfg.num_key_value_heads > 1_000_000 {
        return Err(out_of_range("qwen3 head_count_kv", cfg.num_key_value_heads, "1..=1000000"));
    }
    if cfg.head_dim == 0 || cfg.head_dim > 1_000_000 {
        return Err(out_of_range("qwen3 key_length", cfg.head_dim, "1..=1000000"));
    }
    // the float knobs must be finite and positive, or every norm and
    // every rope angle downstream is poisoned
    if !(0 < cfg.rms_norm_eps && cfg.rms_norm_eps < 0x7F80_0000) {
        return Err(not_positive_finite("layer_norm_rms_epsilon"));
    }
    if !(0 < cfg.rope_theta && cfg.rope_theta < 0x7F80_0000) {
        return Err(not_positive_finite("rope.freq_base"));
    }
    // context gets its own, wider range: 1M-token models are real
    if cfg.max_position_embeddings == 0 || cfg.max_position_embeddings > 100_000_000 {
        return Err(
            out_of_range("context_length", cfg.max_position_embeddings, "1..=100000000"),
        );
    }
    if cfg.num_attention_heads.checked_mul(cfg.head_dim).is_none()
        || cfg.num_key_value_heads.checked_mul(cfg.head_dim).is_none() {
        return Err(LoaderError::Structure { reason: text("head_count x head_dim overflows u32") });
    }
    // RoPE needs even head_dim so pairs form; refuse at load time, not
    // with a panic on first rope() call
    if cfg.head_dim % 2 != 0 {
        let mut reason = text("key_length ");
        push_dec(&mut reason, cfg.head_dim as u64);
        push_str(&mut reason, " must be even (RoPE pairs)");
        return Err(LoaderError::Structure { reason });
    }
    if cfg.num_attention_heads % cfg.num_key_value_heads != 0 {
        let mut reason = text("head_count ");
        push_dec(&mut reason, cfg.num_attention_heads as u64);
        push_str(&mut reason, " does not divide evenly over head_count_kv ");
        push_dec(&mut reason, cfg.num_key_value_heads as u64);
        push_str(&mut reason, " (GQA)");
        return Err(LoaderError::Structure { reason });
    }
    Ok(())
}

/// Read the family config out of the metadata. The architecture is
/// checked first: everything after assumes qwen3's key namespace.
pub fn family_config(c: &Container) -> (r: Result<FamilyConfig, LoaderError>)
    ensures
        match spec_family_config(c.metadata@) {
            Ok(v) => r == Ok::<FamilyConfig, LoaderError>(v),
            Err(e) => r matches Err(x) && x@ == e,
        },
{
    let arch = get_str(c, "general.architecture")?;
    if !crate::text::str_eq(arch, "qwen3") {
        // truncate the echo: a hostile value should not balloon the
        // error message
        return Err(LoaderError::UnsupportedArchitecture { found: echo(arch) });
    }
    let vocab_size = vocab_size(c)?;
    let cfg = config_fields(c, vocab_size)?;
    let value_length = get_u32(c, "qwen3.attention.value_length")?;
    check_config(&cfg, value_length)?;
    Ok(FamilyConfig::Qwen3(cfg))
}

} // verus!
