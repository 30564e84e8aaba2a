use nucleon::families::qwen3::{from_yamf as family_from_yamf, Qwen3};
use nucleon::loader::config::{family_config, FamilyConfig};
use nucleon::loader::container::{parse, MetaValue};
use nucleon::loader::dequant::Decoded;
use nucleon::loader::yamf::{load_bytes, RawTensor, TokenType, Yamf};
use nucleon::loader::LoaderError;
use nucleon::tokenizer::{added_token, from_yamf, Tokenizer, TokenizerError};

// ------------------------------------------------------------- builder

const T_U32: u32 = 4;
const T_I32: u32 = 5;
const T_F32: u32 = 6;
const T_BOOL: u32 = 7;
const T_STR: u32 = 8;
const T_ARR: u32 = 9;

const GGML_F32: u32 = 0;
const GGML_Q8_0: u32 = 8;

enum Kv {
    U32(String, u32),
    U64(String, u64),
    F32(String, f32),
    Bool(String, bool),
    Str(String, String),
    ArrStr(String, Vec<String>),
    ArrI32(String, Vec<i32>),
}

struct TensorEntry {
    name: String,
    ne_dims: Vec<u64>,
    type_id: u32,
    bytes: Vec<u8>,
    forced_offset: Option<u64>,
}

/// Builds a spec-conforming GGUF v3 byte blob.
struct GgufBuilder {
    version: u32,
    kvs: Vec<Kv>,
    tensors: Vec<TensorEntry>,
    alignment: u64,
}

fn put_str(out: &mut Vec<u8>, s: &str) {
    out.extend_from_slice(&(s.len() as u64).to_le_bytes());
    out.extend_from_slice(s.as_bytes());
}

impl GgufBuilder {
    fn new() -> Self {
        Self { version: 3, kvs: Vec::new(), tensors: Vec::new(), alignment: 32 }
    }

    fn version(mut self, v: u32) -> Self {
        self.version = v;
        self
    }

    fn kv_u32(mut self, k: &str, v: u32) -> Self {
        self.kvs.push(Kv::U32(k.into(), v));
        self
    }

    fn kv_u64(mut self, k: &str, v: u64) -> Self {
        self.kvs.push(Kv::U64(k.into(), v));
        self
    }

    fn kv_f32(mut self, k: &str, v: f32) -> Self {
        self.kvs.push(Kv::F32(k.into(), v));
        self
    }

    fn kv_bool(mut self, k: &str, v: bool) -> Self {
        self.kvs.push(Kv::Bool(k.into(), v));
        self
    }

    fn kv_str(mut self, k: &str, v: &str) -> Self {
        self.kvs.push(Kv::Str(k.into(), v.into()));
        self
    }

    fn kv_arr_str(mut self, k: &str, v: &[&str]) -> Self {
        self.kvs.push(Kv::ArrStr(k.into(), v.iter().map(|s| s.to_string()).collect()));
        self
    }

    fn kv_arr_i32(mut self, k: &str, v: &[i32]) -> Self {
        self.kvs.push(Kv::ArrI32(k.into(), v.to_vec()));
        self
    }

    fn tensor(mut self, name: &str, ne_dims: &[u64], type_id: u32, bytes: Vec<u8>) -> Self {
        self.tensors.push(TensorEntry {
            name: name.into(),
            ne_dims: ne_dims.to_vec(),
            type_id,
            bytes,
            forced_offset: None,
        });
        self
    }

    fn tensor_at(
        mut self,
        name: &str,
        ne_dims: &[u64],
        type_id: u32,
        bytes: Vec<u8>,
        offset: u64,
    ) -> Self {
        self.tensors.push(TensorEntry {
            name: name.into(),
            ne_dims: ne_dims.to_vec(),
            type_id,
            bytes,
            forced_offset: Some(offset),
        });
        self
    }

    fn without_tensor(mut self, name: &str) -> Self {
        self.tensors.retain(|t| t.name != name);
        self
    }

    fn without_kv(mut self, key: &str) -> Self {
        self.kvs.retain(|kv| {
            let k = match kv {
                Kv::U32(k, _) | Kv::U64(k, _) | Kv::F32(k, _) | Kv::Bool(k, _) => k,
                Kv::Str(k, _) | Kv::ArrStr(k, _) | Kv::ArrI32(k, _) => k,
            };
            k != key
        });
        self
    }

    fn build(self) -> Vec<u8> {
        let mut out = Vec::new();
        out.extend_from_slice(b"GGUF");
        out.extend_from_slice(&self.version.to_le_bytes());
        out.extend_from_slice(&(self.tensors.len() as u64).to_le_bytes());
        out.extend_from_slice(&(self.kvs.len() as u64).to_le_bytes());
        for kv in &self.kvs {
            match kv {
                Kv::U32(k, v) => {
                    put_str(&mut out, k);
                    out.extend_from_slice(&T_U32.to_le_bytes());
                    out.extend_from_slice(&v.to_le_bytes());
                }
                Kv::U64(k, v) => {
                    put_str(&mut out, k);
                    out.extend_from_slice(&10u32.to_le_bytes());
                    out.extend_from_slice(&v.to_le_bytes());
                }
                Kv::F32(k, v) => {
                    put_str(&mut out, k);
                    out.extend_from_slice(&T_F32.to_le_bytes());
                    out.extend_from_slice(&v.to_le_bytes());
                }
                Kv::Bool(k, v) => {
                    put_str(&mut out, k);
                    out.extend_from_slice(&T_BOOL.to_le_bytes());
                    out.push(u8::from(*v));
                }
                Kv::Str(k, v) => {
                    put_str(&mut out, k);
                    out.extend_from_slice(&T_STR.to_le_bytes());
                    put_str(&mut out, v);
                }
                Kv::ArrStr(k, items) => {
                    put_str(&mut out, k);
                    out.extend_from_slice(&T_ARR.to_le_bytes());
                    out.extend_from_slice(&T_STR.to_le_bytes());
                    out.extend_from_slice(&(items.len() as u64).to_le_bytes());
                    for s in items {
                        put_str(&mut out, s);
                    }
                }
                Kv::ArrI32(k, items) => {
                    put_str(&mut out, k);
                    out.extend_from_slice(&T_ARR.to_le_bytes());
                    out.extend_from_slice(&T_I32.to_le_bytes());
                    out.extend_from_slice(&(items.len() as u64).to_le_bytes());
                    for v in items {
                        out.extend_from_slice(&v.to_le_bytes());
                    }
                }
            }
        }
        let mut offset: u64 = 0;
        let mut blobs: Vec<(u64, &[u8])> = Vec::new();
        for t in &self.tensors {
            let rem = offset % self.alignment;
            if rem != 0 {
                offset += self.alignment - rem;
            }
            if let Some(forced) = t.forced_offset {
                offset = forced;
            }
            put_str(&mut out, &t.name);
            out.extend_from_slice(&(t.ne_dims.len() as u32).to_le_bytes());
            for d in &t.ne_dims {
                out.extend_from_slice(&d.to_le_bytes());
            }
            out.extend_from_slice(&t.type_id.to_le_bytes());
            out.extend_from_slice(&offset.to_le_bytes());
            blobs.push((offset, &t.bytes));
            offset += t.bytes.len() as u64;
        }
        let rem = out.len() % (self.alignment as usize);
        if rem != 0 {
            out.resize(out.len() + (self.alignment as usize - rem), 0);
        }
        let data_start = out.len();
        for (off, bytes) in blobs {
            let at = data_start + off as usize;
            let end = at + bytes.len();
            if out.len() < end {
                out.resize(end, 0);
            }
            out[at..end].copy_from_slice(bytes);
        }
        out
    }
}

fn quantize_q8_0_ref(vals: &[f32]) -> Vec<u8> {
    assert!(vals.len() % 32 == 0, "Q8_0 needs multiples of 32");
    let mut out = Vec::with_capacity(vals.len() / 32 * 34);
    for block in vals.chunks(32) {
        let amax = block.iter().fold(0.0f32, |m, v| m.max(v.abs()));
        let d = amax / 127.0;
        let id = if d != 0.0 { 1.0 / d } else { 0.0 };
        out.extend_from_slice(&half::f16::from_f32(d).to_le_bytes());
        for &v in block {
            out.push(((v * id).round() as i32).clamp(-128, 127) as u8);
        }
    }
    out
}

fn f32_bytes(vals: &[f32]) -> Vec<u8> {
    let mut out = Vec::with_capacity(vals.len() * 4);
    for v in vals {
        out.extend_from_slice(&v.to_le_bytes());
    }
    out
}

// ------------------------------------------------------------- fixture

/// GPT-2's bytes_to_unicode: printable bytes map to themselves, the rest
/// to 256 + their rank among the unprintable ones.
fn byte_char(b: u8) -> char {
    let printable = |x: u32| (0x21..=0x7E).contains(&x) || (0xA1..=0xAC).contains(&x) || (0xAE..=0xFF).contains(&x);
    if printable(b as u32) {
        return char::from_u32(b as u32).unwrap();
    }
    let n = (0..b).filter(|c| !printable(*c as u32)).count() as u32;
    char::from_u32(256 + n).unwrap()
}

const NAMED: [&str; 15] = [
    "a", "b", "ab", "76", ".a", "Ġa", "abab", "ĊĊ", "<|endoftext|>", "<|im_end|>",
    "<|im_start|>", "<|fim_pad|>", "<think>", "</think>", "<unk>",
];

const CHATML: &str = "{% for message in messages %}<|im_start|>{{ message.role }}\n{{ message.content }}<|im_end|>\n{% endfor %}{% if add_generation_prompt %}<|im_start|>assistant\n{% endif %}";

/// The vocabulary: 15 named tokens, then the 254 byte-level alphabet
/// characters the named ones do not already cover.
fn chat_tokens() -> Vec<String> {
    let mut tokens: Vec<String> = NAMED.iter().map(|s| s.to_string()).collect();
    for b in 0..=255u8 {
        let s = byte_char(b).to_string();
        if !tokens.contains(&s) {
            tokens.push(s);
        }
    }
    tokens
}

fn chat_types(n: usize) -> Vec<i32> {
    (0..n)
        .map(|i| match i {
            8..=11 => 3,
            12 | 13 => 4,
            14 => 2,
            _ => 1,
        })
        .collect()
}

/// A 1-layer qwen3 mini model with a buildable ChatML tokenizer: hidden
/// 32, ffn 64, 2 heads / 1 kv head, head_dim 16, vocab 269 (the byte-level
/// alphabet included). Every required tensor present; ffn_gate is the Q8_0
/// one, its rows 32 wide because Q8_0 blocks never span rows.
fn chat_mini() -> GgufBuilder {
    let hidden = 32u64;
    let ffn = 64u64;
    let q_rows = 32u64;
    let kv_rows = 16u64;
    let tokens = chat_tokens();
    let vocab = tokens.len() as u64;
    let token_refs: Vec<&str> = tokens.iter().map(|s| s.as_str()).collect();
    let types = chat_types(tokens.len());
    let embd: Vec<f32> = (0..vocab * hidden)
        .map(|i| ((i / hidden) * 100 + (i % hidden)) as f32)
        .collect();
    let loader: Vec<f32> = (0..ffn * hidden).map(|i| ((i % 32) * 4) as f32 - 127.0).collect();
    GgufBuilder::new()
        .kv_str("general.architecture", "qwen3")
        .kv_u32("general.quantization_version", 2)
        .kv_u32("qwen3.block_count", 1)
        .kv_u32("qwen3.embedding_length", hidden as u32)
        .kv_u32("qwen3.feed_forward_length", ffn as u32)
        .kv_u32("qwen3.attention.head_count", 2)
        .kv_u32("qwen3.attention.head_count_kv", 1)
        .kv_u32("qwen3.attention.key_length", 16)
        .kv_u32("qwen3.attention.value_length", 16)
        .kv_f32("qwen3.attention.layer_norm_rms_epsilon", 1e-6)
        .kv_f32("qwen3.rope.freq_base", 1e6)
        .kv_u32("qwen3.context_length", 64)
        .kv_str("tokenizer.ggml.model", "gpt2")
        .kv_str("tokenizer.ggml.pre", "qwen2")
        .kv_u32("tokenizer.ggml.eos_token_id", 9)
        .kv_arr_str("tokenizer.ggml.tokens", &token_refs)
        .kv_arr_i32("tokenizer.ggml.token_type", &types)
        .kv_arr_str("tokenizer.ggml.merges", &["a b", "7 6", ". a", "Ġ a"])
        .kv_str("tokenizer.chat_template", CHATML)
        .tensor("token_embd.weight", &[hidden, vocab], GGML_F32, f32_bytes(&embd))
        .tensor("output_norm.weight", &[hidden], GGML_F32, f32_bytes(&[1.0; 32]))
        .tensor("blk.0.attn_norm.weight", &[hidden], GGML_F32, f32_bytes(&[1.0; 32]))
        .tensor("blk.0.attn_q.weight", &[hidden, q_rows], GGML_F32, f32_bytes(&[0.5; 1024]))
        .tensor("blk.0.attn_k.weight", &[hidden, kv_rows], GGML_F32, f32_bytes(&[0.5; 512]))
        .tensor("blk.0.attn_v.weight", &[hidden, kv_rows], GGML_F32, f32_bytes(&[0.5; 512]))
        .tensor("blk.0.attn_q_norm.weight", &[16], GGML_F32, f32_bytes(&[1.0; 16]))
        .tensor("blk.0.attn_k_norm.weight", &[16], GGML_F32, f32_bytes(&[1.0; 16]))
        .tensor("blk.0.attn_output.weight", &[q_rows, hidden], GGML_F32, f32_bytes(&[0.5; 1024]))
        .tensor("blk.0.ffn_norm.weight", &[hidden], GGML_F32, f32_bytes(&[1.0; 32]))
        .tensor("blk.0.ffn_gate.weight", &[hidden, ffn], GGML_Q8_0, quantize_q8_0_ref(&loader))
        .tensor("blk.0.ffn_up.weight", &[hidden, ffn], GGML_F32, f32_bytes(&[0.25; 2048]))
        .tensor("blk.0.ffn_down.weight", &[ffn, hidden], GGML_F32, f32_bytes(&[0.25; 2048]))
}

fn yamf() -> Yamf {
    match load_bytes(&chat_mini().build()) {
        Ok(y) => y,
        Err(e) => panic!("mini must load: {}", e.to_string()),
    }
}

fn tok() -> Tokenizer {
    match from_yamf(&yamf()) {
        Ok(t) => t,
        Err(e) => panic!("mini must build: {}", e.to_string()),
    }
}

fn model() -> Qwen3 {
    match family_from_yamf(&yamf()) {
        Ok(m) => m,
        Err(e) => panic!("mini must build: {}", e.to_string()),
    }
}

fn refusal(bytes: &[u8]) -> LoaderError {
    match load_bytes(bytes) {
        Ok(_) => panic!("must refuse"),
        Err(e) => e,
    }
}

fn structure_reason(bytes: &[u8]) -> String {
    match refusal(bytes) {
        LoaderError::Structure { reason } => reason,
        other => panic!("want Structure, got {}", other.to_string()),
    }
}

// ------------------------------------------------- the loader fixture

// A 1-layer qwen3 mini model: hidden 32, ffn 64, 2 heads / 1 kv
// head, head_dim 16, vocab 10. Every required tensor present;
// ffn_gate is the Q8_0 one: its rows are 32 wide because Q8_0
// blocks never span rows, and the fixture's every block contains
// -127 so the roundtrip is integer-exact.
fn mini() -> GgufBuilder {
    let hidden = 32u64;
    let ffn = 64u64;
    let q_rows = 32u64;
    let kv_rows = 16u64;
    let vocab = 10u64;
    let tokens: Vec<String> = (0..8)
        .map(|i| format!("tok{i}"))
        .chain(["<|endoftext|>".to_string(), "<|im_end|>".to_string()])
        .collect();
    let token_refs: Vec<&str> = tokens.iter().map(|s| s.as_str()).collect();
    let types: Vec<i32> = vec![1, 1, 1, 1, 1, 5, 4, 6, 3, 3];
    // embedding data: value = row * 100 + col, to pin the layout
    let embd: Vec<f32> = (0..vocab * hidden)
        .map(|i| ((i / hidden) * 100 + (i % hidden)) as f32)
        .collect();
    // ffn_gate: every 32-value block holds -127, so d = 1.0 exactly
    let gate: Vec<f32> = (0..ffn * hidden).map(|i| ((i % 32) * 4) as f32 - 127.0).collect();
    GgufBuilder::new()
        .kv_str("general.architecture", "qwen3")
        .kv_u32("general.quantization_version", 2)
        .kv_u32("qwen3.block_count", 1)
        .kv_u32("qwen3.embedding_length", hidden as u32)
        .kv_u32("qwen3.feed_forward_length", ffn as u32)
        .kv_u32("qwen3.attention.head_count", 2)
        .kv_u32("qwen3.attention.head_count_kv", 1)
        .kv_u32("qwen3.attention.key_length", 16)
        .kv_u32("qwen3.attention.value_length", 16)
        .kv_f32("qwen3.attention.layer_norm_rms_epsilon", 1e-6)
        .kv_f32("qwen3.rope.freq_base", 1e6)
        .kv_u32("qwen3.context_length", 64)
        .kv_str("tokenizer.ggml.model", "gpt2")
        .kv_str("tokenizer.ggml.pre", "qwen2")
        .kv_u32("tokenizer.ggml.eos_token_id", 9)
        .kv_arr_str("tokenizer.ggml.tokens", &token_refs)
        .kv_arr_i32("tokenizer.ggml.token_type", &types)
        .kv_arr_str("tokenizer.ggml.merges", &["a b", "cc dd"])
        .kv_str("tokenizer.chat_template", "{{ messages }}")
        // ne order: dims[0] = row length
        .tensor("token_embd.weight", &[hidden, vocab], GGML_F32, f32_bytes(&embd))
        .tensor("output_norm.weight", &[hidden], GGML_F32, f32_bytes(&[1.0; 32]))
        .tensor("blk.0.attn_norm.weight", &[hidden], GGML_F32, f32_bytes(&[1.0; 32]))
        .tensor("blk.0.attn_q.weight", &[hidden, q_rows], GGML_F32, f32_bytes(&[0.5; 1024]))
        .tensor("blk.0.attn_k.weight", &[hidden, kv_rows], GGML_F32, f32_bytes(&[0.5; 512]))
        .tensor("blk.0.attn_v.weight", &[hidden, kv_rows], GGML_F32, f32_bytes(&[0.5; 512]))
        .tensor("blk.0.attn_q_norm.weight", &[16], GGML_F32, f32_bytes(&[1.0; 16]))
        .tensor("blk.0.attn_k_norm.weight", &[16], GGML_F32, f32_bytes(&[1.0; 16]))
        .tensor("blk.0.attn_output.weight", &[q_rows, hidden], GGML_F32, f32_bytes(&[0.5; 1024]))
        .tensor("blk.0.ffn_norm.weight", &[hidden], GGML_F32, f32_bytes(&[1.0; 32]))
        .tensor("blk.0.ffn_gate.weight", &[hidden, ffn], GGML_Q8_0, quantize_q8_0_ref(&gate))
        .tensor("blk.0.ffn_up.weight", &[hidden, ffn], GGML_F32, f32_bytes(&[0.25; 2048]))
        .tensor("blk.0.ffn_down.weight", &[ffn, hidden], GGML_F32, f32_bytes(&[0.25; 2048]))
}

fn loaded(bytes: &[u8]) -> Yamf {
    match load_bytes(bytes) {
        Ok(y) => y,
        Err(e) => panic!("{}", e.to_string()),
    }
}

/// The value at a row-major index of a decoded tensor.
fn value_at(t: &RawTensor, index: &[usize]) -> f32 {
    let mut flat = 0;
    for (d, i) in t.shape.iter().zip(index) {
        assert!(i < d);
        flat = flat * d + i;
    }
    match &t.values {
        Decoded::F32 { bits } => f32::from_bits(bits[flat]),
        Decoded::Q8_0 { scales, quants } => {
            half::f16::from_bits(scales[flat / 32]).to_f32() * quants[flat] as f32
        }
    }
}

#[test]
fn loads_a_complete_mini_model() {
    let yamf = loaded(&mini().build());
    let FamilyConfig::Qwen3(cfg) = &yamf.family;
    assert_eq!(cfg.num_hidden_layers, 1);
    assert_eq!(cfg.vocab_size, 10);
    assert_eq!(yamf.tensors.len(), 13);
    assert_eq!(yamf.tokenizer.tokens.len(), 10);
    assert_eq!(yamf.tokenizer.pre, "qwen2");
    assert_eq!(yamf.tokenizer.merges[0], ("a".to_string(), "b".to_string()));
    assert_eq!(yamf.tokenizer.token_types[5], TokenType::Unused);
    assert_eq!(yamf.tokenizer.token_types[8], TokenType::Control);
    assert_eq!(yamf.chat_template.source(), "{{ messages }}");
}

#[test]
fn dims_reverse_into_row_major_and_data_stays_put() {
    let yamf = loaded(&mini().build());
    let embd = yamf.tensors.get("token_embd.weight").unwrap();
    // ne [32, 10] becomes ours [10, 32]: 10 vocab rows of 32 values
    assert_eq!(embd.shape, vec![10, 32]);
    // the bytes are NOT moved: row r, col c = r*100 + c
    assert_eq!(value_at(embd, &[0, 0]), 0.0);
    assert_eq!(value_at(embd, &[3, 5]), 305.0);
    assert_eq!(value_at(embd, &[9, 31]), 931.0);
}

#[test]
fn q8_0_tensor_dequantizes_exactly() {
    let yamf = loaded(&mini().build());
    let gate = yamf.tensors.get("blk.0.ffn_gate.weight").unwrap();
    assert_eq!(gate.shape, vec![64, 32]);
    // every fixture block has amax 127 (d = 1.0): exact integers back
    assert_eq!(value_at(gate, &[0, 0]), -127.0);
    assert_eq!(value_at(gate, &[0, 1]), -123.0);
}

#[test]
fn stop_set_is_eos_plus_endoftext() {
    let yamf = loaded(&mini().build());
    // eos = 9 (<|im_end|>), <|endoftext|> sits at index 8
    assert_eq!(yamf.tokenizer.stop_token_ids, vec![9, 8]);
}

#[test]
fn tied_file_has_no_output_weight_and_untied_is_accepted() {
    let yamf = loaded(&mini().build());
    assert!(yamf.tensors.get("output.weight").is_none());

    // an untied size ships output.weight [vocab, hidden] (ne [32, 10])
    let untied: Vec<f32> = vec![0.0; 320];
    let b = mini().tensor("output.weight", &[32, 10], GGML_F32, f32_bytes(&untied));
    let yamf = loaded(&b.build());
    assert!(yamf.tensors.get("output.weight").is_some());
}

#[test]
fn missing_and_unexpected_and_misshapen_tensors_are_named() {
    // missing: a minimal build that stops after one tensor
    let without = GgufBuilder::new()
        .kv_str("general.architecture", "qwen3")
        .kv_u32("qwen3.block_count", 1)
        .kv_u32("qwen3.embedding_length", 8)
        .kv_u32("qwen3.feed_forward_length", 16)
        .kv_u32("qwen3.attention.head_count", 2)
        .kv_u32("qwen3.attention.head_count_kv", 1)
        .kv_u32("qwen3.attention.key_length", 4)
        .kv_u32("qwen3.attention.value_length", 4)
        .kv_f32("qwen3.attention.layer_norm_rms_epsilon", 1e-6)
        .kv_f32("qwen3.rope.freq_base", 1e6)
        .kv_u32("qwen3.context_length", 64)
        .kv_str("tokenizer.ggml.model", "gpt2")
        .kv_str("tokenizer.ggml.pre", "qwen2")
        .kv_u32("tokenizer.ggml.eos_token_id", 1)
        .kv_arr_str("tokenizer.ggml.tokens", &["a", "b"])
        .kv_arr_i32("tokenizer.ggml.token_type", &[1, 1])
        .kv_arr_str("tokenizer.ggml.merges", &[])
        .kv_str("tokenizer.chat_template", "x")
        .tensor("token_embd.weight", &[8, 2], GGML_F32, f32_bytes(&[0.0; 16]));
    match load_bytes(&without.build()) {
        Err(LoaderError::MissingTensor { .. }) => {}
        other => panic!("{:?}", other.err().map(|e| e.to_string())),
    }

    // unexpected tensor
    let b = mini().tensor("mystery.weight", &[32], GGML_F32, f32_bytes(&[0.0; 32]));
    match load_bytes(&b.build()) {
        Err(LoaderError::UnexpectedTensor { name }) => assert_eq!(name, "mystery.weight"),
        other => panic!("{:?}", other.err().map(|e| e.to_string())),
    }

    // wrong shape: output.weight with its dims swapped
    let b = mini().tensor("output.weight", &[10, 32], GGML_F32, f32_bytes(&[0.0; 320]));
    match load_bytes(&b.build()) {
        Err(LoaderError::WrongShape { name, want, found }) => {
            assert_eq!(name, "output.weight");
            assert_eq!(want, vec![10, 32]); // ours: [vocab, hidden]
            assert_eq!(found, vec![32, 10]); // ne [10, 32] reversed
        }
        other => panic!("{:?}", other.err().map(|e| e.to_string())),
    }
}

#[test]
fn unsupported_quant_type_is_refused_by_name() {
    let b = mini().tensor("output.weight", &[32, 10], 2 /* Q4_0 */, vec![0; 180]);
    match load_bytes(&b.build()) {
        Err(LoaderError::UnsupportedTensorType { type_id: 2, .. }) => {}
        other => panic!("{:?}", other.err().map(|e| e.to_string())),
    }
}

#[test]
fn malformed_merges_are_refused() {
    for bad in ["a b c", " b", "a ", "ab"] {
        let b = base_kvs("gpt2", "qwen2", 0, &["a"], &[bad], "x");
        match load_bytes(&b.build()) {
            Err(LoaderError::Structure { reason }) => {
                assert!(reason.contains("merge"), "{bad}: {reason}")
            }
            other => panic!("{bad}: {:?}", other.err().map(|e| e.to_string())),
        }
    }
}

#[test]
fn empty_arrays_keep_their_declared_element_type() {
    // empty string-typed merges: fine
    let b = base_kvs("gpt2", "qwen2", 0, &["a"], &[], "x");
    // fails later (missing tensors), but NOT on the merges
    match load_bytes(&b.build()) {
        Err(LoaderError::MissingTensor { .. }) => {}
        other => panic!("{:?}", other.err().map(|e| e.to_string())),
    }

    // an i32-typed empty array where strings are declared: refused
    let c = parse(&GgufBuilder::new().kv_arr_i32("tokenizer.ggml.merges", &[]).build()).unwrap();
    match nucleon::loader::tokens::str_array(&c, "tokenizer.ggml.merges") {
        Err(LoaderError::WrongType { key, .. }) => assert_eq!(key, "tokenizer.ggml.merges"),
        other => panic!("{:?}", other.err().map(|e| e.to_string())),
    }
}

#[test]
fn u64_written_dimension_keys_are_accepted() {
    // same metadata but block_count as a u64 value
    let b = GgufBuilder::new()
        .kv_str("general.architecture", "qwen3")
        .kv_u64("qwen3.block_count", 1)
        .kv_u32("qwen3.embedding_length", 8)
        .kv_u32("qwen3.feed_forward_length", 16)
        .kv_u32("qwen3.attention.head_count", 2)
        .kv_u32("qwen3.attention.head_count_kv", 1)
        .kv_u32("qwen3.attention.key_length", 4)
        .kv_u32("qwen3.attention.value_length", 4)
        .kv_f32("qwen3.attention.layer_norm_rms_epsilon", 1e-6)
        .kv_f32("qwen3.rope.freq_base", 1e6)
        .kv_u32("qwen3.context_length", 64)
        .kv_str("tokenizer.ggml.model", "gpt2")
        .kv_str("tokenizer.ggml.pre", "qwen2")
        .kv_u32("tokenizer.ggml.eos_token_id", 0)
        .kv_arr_str("tokenizer.ggml.tokens", &["a"])
        .kv_arr_i32("tokenizer.ggml.token_type", &[1])
        .kv_arr_str("tokenizer.ggml.merges", &[])
        .kv_str("tokenizer.chat_template", "x");
    // fails on missing tensors, which means the u64 key was read fine
    match load_bytes(&b.build()) {
        Err(LoaderError::MissingTensor { .. }) => {}
        other => panic!("{:?}", other.err().map(|e| e.to_string())),
    }
}

#[test]
fn out_of_bounds_overlapping_and_misaligned_tensor_ranges_are_refused() {
    // out of bounds: truncate the built file so the last tensor's
    // range sticks out past the data region
    let full = mini().build();
    let cut = &full[..full.len() - 8];
    match load_bytes(cut) {
        Err(LoaderError::Structure { reason }) => {
            assert!(reason.contains("ends at data byte"), "{reason}")
        }
        other => panic!("{:?}", other.err().map(|e| e.to_string())),
    }

    // overlap: two tensors forced onto the same data offset
    let b = base_kvs("gpt2", "qwen2", 0, &["a"], &[], "x")
        .kv_u32("qwen3.some", 1)
        .tensor_at("token_embd.weight", &[8, 1], GGML_F32, f32_bytes(&[0.0; 8]), 0)
        .tensor_at("output_norm.weight", &[8], GGML_F32, f32_bytes(&[1.0; 8]), 0);
    match load_bytes(&b.build()) {
        Err(LoaderError::Structure { reason }) => {
            assert!(reason.contains("overlap"), "{reason}")
        }
        other => panic!("{:?}", other.err().map(|e| e.to_string())),
    }

    // misalignment: an offset that is not a multiple of 32 refuses at
    // the container layer, before any shape logic runs
    let b = base_kvs("gpt2", "qwen2", 0, &["a"], &[], "x")
        .tensor_at("token_embd.weight", &[8, 1], GGML_F32, f32_bytes(&[0.0; 8]), 3);
    match load_bytes(&b.build()) {
        Err(LoaderError::Structure { reason }) => {
            assert!(reason.contains("aligned"), "{reason}")
        }
        other => panic!("{:?}", other.err().map(|e| e.to_string())),
    }
}

#[test]
fn f16_tensor_refuses_as_unsupported_type_not_missing_quant_version() {
    // F16 (type id 1) is not quantized: no quantization_version is
    // demanded, and the refusal names the type
    let b = base_kvs("gpt2", "qwen2", 0, &["a"], &[], "x")
        .tensor("token_embd.weight", &[8, 1], 1, vec![0; 16]);
    match load_bytes(&b.build()) {
        Err(LoaderError::UnsupportedTensorType { type_id: 1, .. }) => {}
        other => panic!("{:?}", other.err().map(|e| e.to_string())),
    }
}

#[test]
fn add_bos_true_is_refused_for_qwen3() {
    let b = base_kvs("gpt2", "qwen2", 0, &["a"], &[], "x").kv_bool("tokenizer.ggml.add_bos_token", true);
    match load_bytes(&b.build()) {
        Err(LoaderError::Structure { reason }) => {
            assert!(reason.contains("add_bos"), "{reason}")
        }
        other => panic!("{:?}", other.err().map(|e| e.to_string())),
    }
    // false is the documented reality and passes this gate
    let b = base_kvs("gpt2", "qwen2", 0, &["a"], &[], "x").kv_bool("tokenizer.ggml.add_bos_token", false);
    match load_bytes(&b.build()) {
        Err(LoaderError::MissingTensor { .. }) => {}
        other => panic!("{:?}", other.err().map(|e| e.to_string())),
    }
}

// ------------------------------------------------------------ the loader

#[test]
fn every_tensor_holds_its_element_count() {
    let y = yamf();
    for name in y.tensors.names() {
        let t = y.tensors.get(&name).unwrap();
        let count: usize = t.shape.iter().product();
        assert_eq!(t.values.len(), count, "{name}");
    }
}

#[test]
fn token_classes_come_through() {
    let y = yamf();
    assert_eq!(y.tokenizer.token_types[8], TokenType::Control);
    assert_eq!(y.tokenizer.token_types[12], TokenType::UserDefined);
    assert_eq!(y.tokenizer.token_types[14], TokenType::Unknown);
    assert_eq!(y.tokenizer.merges[0], ("a".to_string(), "b".to_string()));
}

#[test]
fn not_gguf_is_refused_with_the_bytes_found() {
    let mut bytes = chat_mini().build();
    bytes[0] = b'X';
    match refusal(&bytes) {
        LoaderError::NotGguf { found } => assert_eq!(&found, b"XGUF"),
        other => panic!("{}", other.to_string()),
    }
}

#[test]
fn version_two_is_refused() {
    match refusal(&chat_mini().version(2).build()) {
        LoaderError::UnsupportedVersion { found } => assert_eq!(found, 2),
        other => panic!("{}", other.to_string()),
    }
}

#[test]
fn truncated_file_names_the_position() {
    let bytes = chat_mini().build();
    match refusal(&bytes[..6]) {
        LoaderError::Truncated { at, .. } => assert_eq!(at, 4),
        other => panic!("{}", other.to_string()),
    }
}

#[test]
fn foreign_architecture_is_refused() {
    let bytes = chat_mini().without_kv("general.architecture").kv_str("general.architecture", "llama").build();
    match refusal(&bytes) {
        LoaderError::UnsupportedArchitecture { found } => assert_eq!(found, "llama"),
        other => panic!("{}", other.to_string()),
    }
}

#[test]
fn missing_tensor_names_the_alphabetically_first() {
    let bytes = chat_mini()
        .without_tensor("output_norm.weight")
        .without_tensor("blk.0.ffn_up.weight")
        .build();
    match refusal(&bytes) {
        LoaderError::MissingTensor { name } => assert_eq!(name, "blk.0.ffn_up.weight"),
        other => panic!("{}", other.to_string()),
    }
}

#[test]
fn overlapping_tensors_are_refused() {
    let bytes = chat_mini().tensor_at("output.weight", &[32, 269], GGML_F32, f32_bytes(&[0.0; 32 * 269]), 0).build();
    let reason = structure_reason(&bytes);
    assert!(reason.contains("overlap"), "{reason}");
}

#[test]
fn overlapping_tensors_at_one_offset_are_named_in_sorted_order() {
    // same start and end as token_embd.weight: the tie breaks on the name
    let bytes = chat_mini().tensor_at("output.weight", &[32, 269], GGML_F32, f32_bytes(&[0.0; 32 * 269]), 0).build();
    let reason = structure_reason(&bytes);
    assert_eq!(reason, "tensors \"output.weight\" and \"token_embd.weight\" overlap in the data region");
}

#[test]
fn nonzero_padding_is_refused() {
    let mut bytes = chat_mini().build();
    let last = bytes.len();
    bytes.extend_from_slice(&[0u8; 32]);
    bytes[last + 5] = 1;
    let reason = structure_reason(&bytes);
    assert!(reason.contains("not zeroed"), "{reason}");
}

#[test]
fn trailing_zero_padding_is_accepted() {
    let mut bytes = chat_mini().build();
    bytes.extend_from_slice(&[0u8; 32]);
    assert!(load_bytes(&bytes).is_ok());
}

#[test]
fn flag_of_the_wrong_type_is_refused() {
    match refusal(&chat_mini().kv_u32("tokenizer.ggml.add_eos_token", 1).build()) {
        LoaderError::WrongType { key, want, found } => {
            assert_eq!(key, "tokenizer.ggml.add_eos_token");
            assert_eq!(want, "bool");
            assert_eq!(found, "u32");
        }
        other => panic!("{}", other.to_string()),
    }
}

#[test]
fn foreign_tokenizer_model_is_refused() {
    let bytes = chat_mini().without_kv("tokenizer.ggml.model").kv_str("tokenizer.ggml.model", "llama").build();
    let reason = structure_reason(&bytes);
    assert!(reason.contains("llama") && reason.contains("gpt2"), "{reason}");
}

#[test]
fn missing_tokens_key_is_refused() {
    match refusal(&chat_mini().without_kv("tokenizer.ggml.merges").build()) {
        LoaderError::MissingKey { key } => assert_eq!(key, "tokenizer.ggml.merges"),
        other => panic!("{}", other.to_string()),
    }
}

#[test]
fn duplicate_token_is_refused_at_its_id() {
    let mut tokens = chat_tokens();
    tokens[7] = "ab".to_string();
    let refs: Vec<&str> = tokens.iter().map(|s| s.as_str()).collect();
    let bytes = chat_mini().without_kv("tokenizer.ggml.tokens").kv_arr_str("tokenizer.ggml.tokens", &refs).build();
    let reason = structure_reason(&bytes);
    assert!(reason.contains("duplicate token at id 7"), "{reason}");
}

#[test]
fn duplicate_merge_is_refused() {
    let bytes = chat_mini()
        .without_kv("tokenizer.ggml.merges")
        .kv_arr_str("tokenizer.ggml.merges", &["a b", "a b"])
        .build();
    let reason = structure_reason(&bytes);
    assert!(reason.contains("duplicate merge"), "{reason}");
}

#[test]
fn token_type_out_of_range_is_refused() {
    let mut types = chat_types(269);
    types[3] = 7;
    let bytes = chat_mini().without_kv("tokenizer.ggml.token_type").kv_arr_i32("tokenizer.ggml.token_type", &types).build();
    let reason = structure_reason(&bytes);
    assert!(reason.contains("outside the spec's 1..=6"), "{reason}");
}

#[test]
fn template_mentioning_a_missing_marker_is_refused() {
    let template = format!("{CHATML}{{# <tool_call> #}}");
    let bytes = chat_mini().without_kv("tokenizer.chat_template").kv_str("tokenizer.chat_template", &template).build();
    let reason = structure_reason(&bytes);
    assert!(reason.contains("<tool_call>"), "{reason}");
}

#[test]
fn template_holding_a_nonce_is_refused() {
    let template = format!("{CHATML}{{# nucleon_smoke_user_9c31f2 #}}");
    let bytes = chat_mini().without_kv("tokenizer.chat_template").kv_str("tokenizer.chat_template", &template).build();
    match refusal(&bytes) {
        LoaderError::Template { reason } => assert!(reason.contains("nonce"), "{reason}"),
        other => panic!("{}", other.to_string()),
    }
}


// ----------------------------------------------------------- tokenizer

#[test]
fn builds_from_the_mini_model() {
    let t = tok();
    assert_eq!(t.vocab_size(), 269);
}

#[test]
fn pre_tokenizer_isolates_digits_before_merges() {
    let t = tok();
    let ids = t.encode("76").unwrap();
    assert_eq!(ids.len(), 2, "digits must not merge across the split: {ids:?}");
    assert_eq!(t.decode(&ids).unwrap(), "76");
}

#[test]
fn user_defined_tokens_match_whole() {
    let t = tok();
    assert_eq!(t.encode("<think>").unwrap(), vec![12]);
    let ids = t.encode("ab<think>ab").unwrap();
    assert_eq!(ids.iter().filter(|&&i| i == 12).count(), 1, "one whole <think> match: {ids:?}");
}

#[test]
fn unknown_tokens_match_whole() {
    assert_eq!(tok().encode("<unk>").unwrap(), vec![14]);
}

#[test]
fn byte_level_regex_stays_off() {
    let t = tok();
    let ids = t.encode(".a").unwrap();
    assert_eq!(ids.len(), 1, "merge must fire inside one piece: {ids:?}");
    assert_eq!(t.decode(&ids).unwrap(), ".a");
}

#[test]
fn only_control_tokens_are_special() {
    let control = added_token("<|im_end|>", TokenType::Control);
    assert!(control.special);
    assert!(!control.normalized);
    let user_defined = added_token("<think>", TokenType::UserDefined);
    assert!(!user_defined.special);
    assert!(!user_defined.normalized);
    let unknown = added_token("<unk>", TokenType::Unknown);
    assert!(!unknown.special);
    assert!(!unknown.normalized);
}

#[test]
fn nfc_normalizes_decomposed_input() {
    let t = tok();
    let decomposed = t.encode("cafe\u{0301}").unwrap();
    let precomposed = t.encode("caf\u{00e9}").unwrap();
    assert_eq!(decomposed, precomposed);
}

#[test]
fn stop_ids_pass_through_unchanged() {
    assert_eq!(tok().stop_token_ids(), &[9, 8]);
}

#[test]
fn unknown_pre_id_refuses_by_name() {
    let mut y = yamf();
    y.tokenizer.pre = "llama3".to_string();
    let Err(err) = from_yamf(&y) else { panic!("unknown pre id must refuse") };
    let msg = err.to_string();
    assert!(msg.contains("llama3") && msg.contains("qwen2"), "{msg}");
}

#[test]
fn broken_merge_refuses_with_build_error() {
    let mut y = yamf();
    y.tokenizer.merges.push(("nosuch".to_string(), "token".to_string()));
    let Err(err) = from_yamf(&y) else { panic!("broken merge must refuse") };
    assert!(matches!(err, TokenizerError::Build { .. }), "{}", err.to_string());
}

#[test]
fn short_token_types_refuse() {
    let mut y = yamf();
    y.tokenizer.token_types.pop();
    let Err(err) = from_yamf(&y) else { panic!("parallel arrays must refuse") };
    assert!(err.to_string().contains("parallel"));
}

#[test]
fn non_normal_alphabet_entry_refuses() {
    let mut y = yamf();
    y.tokenizer.token_types[20] = TokenType::Byte;
    let Err(err) = from_yamf(&y) else { panic!("non-Normal alphabet must refuse") };
    assert!(err.to_string().contains("Normal"));
}

#[test]
fn specials_reuse_their_vocab_ids() {
    let t = tok();
    assert_eq!(t.encode("<|endoftext|>").unwrap(), vec![8]);
    assert_eq!(t.encode("<|im_end|>").unwrap(), vec![9]);
    assert_eq!(t.encode("<|im_start|>").unwrap(), vec![10]);
}

#[test]
fn ascii_round_trip() {
    let t = tok();
    let ids = t.encode("ab").unwrap();
    assert_eq!(ids, vec![2]);
    assert_eq!(t.decode(&ids).unwrap(), "ab");
}

#[test]
fn latin1_round_trip() {
    let t = tok();
    let ids = t.encode("café").unwrap();
    assert_eq!(t.decode(&ids).unwrap(), "café");
}

#[test]
fn encode_never_adds_specials() {
    let ids = tok().encode("ab").unwrap();
    for special in [8u32, 9, 10] {
        assert!(!ids.contains(&special), "unexpected special {special} in {ids:?}");
    }
}

#[test]
fn oversized_input_is_refused() {
    let t = tok();
    let big = " ".repeat(512 * 1024 + 1);
    let Err(err) = t.encode(&big) else { panic!("oversized input must refuse") };
    let msg = err.to_string();
    assert!(msg.contains("524288"), "cap named in the refusal: {msg}");
}

#[test]
fn input_at_the_cap_is_encoded() {
    let t = tok();
    let ids = t.encode(&"a".repeat(512 * 1024)).unwrap();
    assert!(!ids.is_empty());
}

#[test]
fn chatml_prompt_keeps_every_marker_single() {
    let t = tok();
    let ids = t.encode("<|im_start|>user\nab<|im_end|>\n<|im_start|>assistant\n").unwrap();
    assert_eq!(ids.iter().filter(|&&i| i == 10).count(), 2, "{ids:?}");
    assert_eq!(ids.iter().filter(|&&i| i == 9).count(), 1, "{ids:?}");
}

#[test]
fn emoji_round_trip() {
    let t = tok();
    let ids = t.encode("🎯").unwrap();
    assert_eq!(ids.len(), 4);
    assert_eq!(t.decode(&ids).unwrap(), "🎯");
}

#[test]
fn split_emoji_streams_without_replacement_char() {
    let t = tok();
    let ids = t.encode("🎯").unwrap();
    let mut stream = t.stream_decoder();
    let mut out = String::new();
    let mut none_count = 0;
    for id in ids {
        match stream.step(id).unwrap() {
            Some(chunk) => out.push_str(&chunk),
            None => none_count += 1,
        }
    }
    assert_eq!(out, "🎯");
    assert_eq!(none_count, 3);
    assert_eq!(stream.finish().unwrap(), None);
}

#[test]
fn truncated_stream_finish_surfaces_the_partial_codepoint() {
    let t = tok();
    let ids = t.encode("🎯").unwrap();
    let mut stream = t.stream_decoder();
    for id in &ids[..3] {
        assert_eq!(stream.step(*id).unwrap(), None);
    }
    let tail = stream.finish().unwrap().expect("buffered bytes must drain");
    assert!(tail.contains('\u{FFFD}'), "truncation must be visible: {tail:?}");
}

#[test]
fn decode_drops_unknown_ids_silently() {
    assert_eq!(tok().decode(&[999_999]).unwrap(), "");
}

#[test]
fn decode_keeps_markers() {
    assert_eq!(tok().decode(&[10]).unwrap(), "<|im_start|>");
}

// -------------------------------------------------------------- family

#[test]
fn builds_from_the_mini_fixture() {
    let m = model();
    assert_eq!(m.config().num_hidden_layers, 1);
    assert_eq!(m.config().hidden_size, 32);
    assert_eq!(m.config().num_attention_heads, 2);
    assert_eq!(m.config().num_key_value_heads, 1);
    assert_eq!(m.config().head_dim, 16);
    assert!(m.lm_head.is_none());
    assert_eq!(m.blocks.len(), 1);
    assert_eq!(m.blocks[0].attn_q.shape, vec![32, 32]);
}

#[test]
fn untied_head_is_accepted() {
    let untied: Vec<f32> = vec![0.0; 32 * 269];
    let bytes = chat_mini().tensor("output.weight", &[32, 269], GGML_F32, f32_bytes(&untied)).build();
    let y = load_bytes(&bytes).unwrap();
    let m = family_from_yamf(&y).unwrap();
    assert!(m.lm_head.is_some());
}

#[test]
fn wrong_shape_tensor_refuses() {
    let mut y = yamf();
    let bad = RawTensor { shape: vec![2, 2], values: Decoded::F32 { bits: vec![0; 4] } };
    y.tensors.insert("token_embd.weight".to_string(), bad);
    let Err(err) = family_from_yamf(&y) else { panic!("wrong-shaped token_embd.weight must refuse") };
    let msg = err.to_string();
    assert!(msg.contains("token_embd"), "{msg}");
    assert!(msg.contains("expected"), "{msg}");
}

#[test]
fn missing_required_tensor_refuses() {
    let mut y = yamf();
    y.tensors.remove("token_embd.weight").unwrap();
    let Err(err) = family_from_yamf(&y) else { panic!("missing token_embd must refuse") };
    assert!(err.to_string().contains("token_embd"));
    assert!(err.to_string().contains("absent"));
}

#[test]
fn leftover_tensor_refuses() {
    let mut y = yamf();
    let extra = RawTensor { shape: vec![1], values: Decoded::F32 { bits: vec![0] } };
    y.tensors.insert("extra.weight".to_string(), extra);
    let Err(err) = family_from_yamf(&y) else { panic!("leftovers must refuse") };
    assert!(err.to_string().contains("leftover"));
}

#[test]
fn empty_ids_refuses() {
    let Err(err) = model().forward(&[]) else { panic!("empty ids must refuse") };
    assert!(err.to_string().contains("empty"));
}

#[test]
fn out_of_range_id_refuses() {
    let m = model();
    let vocab = m.config().vocab_size;
    let Err(err) = m.forward(&[vocab]) else { panic!("out-of-range id must refuse") };
    let msg = err.to_string();
    assert!(msg.contains("vocab_size"), "{msg}");
    assert_eq!(msg, "forward pass failed: id 269 at position 0 is >= vocab_size 269");
}

#[test]
fn forward_plan_carries_the_head_layout() {
    let plan = match model().forward(&[0, 1, 2]) {
        Ok(p) => p,
        Err(e) => panic!("{}", e.to_string()),
    };
    assert_eq!(plan.ids, vec![0, 1, 2]);
    assert_eq!(plan.seq, 3);
    assert_eq!(plan.n_heads, 2);
    assert_eq!(plan.n_kv_heads, 1);
    assert_eq!(plan.q_rows, 32);
}

// ------------------------------------------- container and config rules

fn tiny() -> Vec<u8> {
    GgufBuilder::new()
        .kv_str("general.architecture", "qwen3")
        .kv_u32("qwen3.block_count", 2)
        .kv_f32("qwen3.rope.freq_base", 1e6)
        .kv_bool("tokenizer.ggml.add_bos_token", false)
        .kv_arr_str("tokenizer.ggml.tokens", &["a", "b"])
        .kv_arr_i32("tokenizer.ggml.token_type", &[1, 3])
        .tensor("t.weight", &[4, 2], GGML_F32, f32_bytes(&[0.0; 8]))
        .build()
}

#[test]
fn parses_header_metadata_and_tensor_infos() {
    let c = parse(&tiny()).unwrap();
    assert_eq!(c.alignment, 32);
    assert_eq!(c.tensors.len(), 1);
    assert_eq!(c.tensors[0].name, "t.weight");
    assert_eq!(c.tensors[0].dims, vec![4, 2]); // ne order, unreversed here
    assert_eq!(c.tensors[0].offset, 0);
    assert_eq!(c.metadata.get("general.architecture"), Some(&MetaValue::Str("qwen3".into())));
    assert_eq!(c.metadata.get("qwen3.block_count"), Some(&MetaValue::U32(2)));
    assert_eq!(c.metadata.get("tokenizer.ggml.add_bos_token"), Some(&MetaValue::Bool(false)));
    match c.metadata.get("tokenizer.ggml.tokens") {
        Some(MetaValue::Array { items, .. }) => assert_eq!(items.len(), 2),
        other => panic!("tokens: {other:?}"),
    }
    // data region starts aligned and inside the file
    assert_eq!(c.data_start % 32, 0);
    assert!(c.data_start + 32 <= c.file_len);
}

#[test]
fn f32_metadata_survives_bit_exactly() {
    let bytes = GgufBuilder::new().kv_f32("qwen3.attention.layer_norm_rms_epsilon", 1e-6).build();
    let c = parse(&bytes).unwrap();
    match c.metadata.get("qwen3.attention.layer_norm_rms_epsilon") {
        Some(MetaValue::F32(bits)) => assert_eq!(*bits, 1e-6f32.to_bits()),
        other => panic!("eps: {other:?}"),
    }
}

#[test]
fn refuses_wrong_magic() {
    let mut b = tiny();
    b[0] = b'X';
    match parse(&b) {
        Err(LoaderError::NotGguf { .. }) => {}
        other => panic!("{:?}", other.err()),
    }
}

#[test]
fn refuses_version_2_and_big_endian_3() {
    let b = GgufBuilder::new().version(2).build();
    match parse(&b) {
        Err(LoaderError::UnsupportedVersion { found: 2 }) => {}
        other => panic!("{:?}", other.err()),
    }
    let b = GgufBuilder::new().version(50_331_648).build();
    match parse(&b) {
        Err(e @ LoaderError::UnsupportedVersion { .. }) => {
            assert!(e.to_string().contains("big-endian"))
        }
        other => panic!("{:?}", other.err()),
    }
}

#[test]
fn refuses_truncated_file() {
    let full = tiny();
    // cut inside the metadata section
    match parse(&full[..40]) {
        Err(LoaderError::Truncated { .. }) => {}
        other => panic!("{:?}", other.err()),
    }
}

#[test]
fn refuses_lying_string_length() {
    // header + one kv whose key claims to be enormous
    let mut b = Vec::new();
    b.extend_from_slice(b"GGUF");
    b.extend_from_slice(&3u32.to_le_bytes());
    b.extend_from_slice(&0u64.to_le_bytes()); // tensors
    b.extend_from_slice(&1u64.to_le_bytes()); // kvs
    b.extend_from_slice(&u64::MAX.to_le_bytes()); // key length: a lie
    match parse(&b) {
        Err(LoaderError::Truncated { .. }) | Err(LoaderError::Structure { .. }) => {}
        other => panic!("{:?}", other.err()),
    }
}

#[test]
fn refuses_bad_bool_and_unknown_meta_type() {
    // hand-build: one kv "k" of type bool with byte 7
    let mut b = Vec::new();
    b.extend_from_slice(b"GGUF");
    b.extend_from_slice(&3u32.to_le_bytes());
    b.extend_from_slice(&0u64.to_le_bytes());
    b.extend_from_slice(&1u64.to_le_bytes());
    b.extend_from_slice(&1u64.to_le_bytes());
    b.push(b'k');
    b.extend_from_slice(&7u32.to_le_bytes()); // bool type
    b.push(7); // invalid bool byte
    match parse(&b) {
        Err(LoaderError::Structure { reason }) => assert!(reason.contains("bool"), "{reason}"),
        other => panic!("{:?}", other.err()),
    }

    let mut b = Vec::new();
    b.extend_from_slice(b"GGUF");
    b.extend_from_slice(&3u32.to_le_bytes());
    b.extend_from_slice(&0u64.to_le_bytes());
    b.extend_from_slice(&1u64.to_le_bytes());
    b.extend_from_slice(&1u64.to_le_bytes());
    b.push(b'k');
    b.extend_from_slice(&13u32.to_le_bytes()); // beyond spec's 0..=12
    match parse(&b) {
        Err(LoaderError::UnknownMetaType { type_id: 13, .. }) => {}
        other => panic!("{:?}", other.err()),
    }
}

#[test]
fn refuses_structural_tensor_lies() {
    // duplicate tensor names
    let b = GgufBuilder::new()
        .tensor("t", &[32], GGML_F32, f32_bytes(&[0.0; 32]))
        .tensor("t", &[32], GGML_F32, f32_bytes(&[0.0; 32]))
        .build();
    match parse(&b) {
        Err(LoaderError::Structure { reason }) => assert!(reason.contains("duplicate"), "{reason}"),
        other => panic!("{:?}", other.err()),
    }

    // a 65-byte tensor name
    let long = "n".repeat(65);
    let b = GgufBuilder::new().tensor(&long, &[32], GGML_F32, f32_bytes(&[0.0; 32])).build();
    match parse(&b) {
        Err(LoaderError::Structure { reason }) => assert!(reason.contains("64"), "{reason}"),
        other => panic!("{:?}", other.err()),
    }

    // a zero dimension
    let b = GgufBuilder::new().tensor("t", &[0, 4], GGML_F32, Vec::new()).build();
    match parse(&b) {
        Err(LoaderError::Structure { reason }) => assert!(reason.contains("zero"), "{reason}"),
        other => panic!("{:?}", other.err()),
    }
}

#[test]
fn refuses_duplicate_metadata_keys() {
    let b = GgufBuilder::new().kv_u32("k", 1).kv_u32("k", 2).build();
    match parse(&b) {
        Err(LoaderError::Structure { reason }) => assert!(reason.contains("duplicate"), "{reason}"),
        other => panic!("{:?}", other.err()),
    }
}

fn qwen3_kvs() -> GgufBuilder {
    GgufBuilder::new()
        .kv_str("general.architecture", "qwen3")
        .kv_u32("qwen3.block_count", 2)
        .kv_u32("qwen3.embedding_length", 8)
        .kv_u32("qwen3.feed_forward_length", 16)
        .kv_u32("qwen3.attention.head_count", 2)
        .kv_u32("qwen3.attention.head_count_kv", 1)
        .kv_u32("qwen3.attention.key_length", 4)
        .kv_u32("qwen3.attention.value_length", 4)
        .kv_f32("qwen3.attention.layer_norm_rms_epsilon", 1e-6)
        .kv_f32("qwen3.rope.freq_base", 1e6)
        .kv_u32("qwen3.context_length", 512)
        .kv_arr_str("tokenizer.ggml.tokens", &["a", "b", "c", "d", "e"])
}

#[test]
fn reads_every_field_and_derives_vocab() {
    let c = parse(&qwen3_kvs().build()).unwrap();
    let FamilyConfig::Qwen3(cfg) = family_config(&c).unwrap();
    assert_eq!(cfg.num_hidden_layers, 2);
    assert_eq!(cfg.hidden_size, 8);
    assert_eq!(cfg.intermediate_size, 16);
    assert_eq!(cfg.num_attention_heads, 2);
    assert_eq!(cfg.num_key_value_heads, 1);
    assert_eq!(cfg.head_dim, 4);
    assert_eq!(cfg.max_position_embeddings, 512);
    assert_eq!(cfg.vocab_size, 5); // tokens array length, no key exists
    assert_eq!(f32::from_bits(cfg.rope_theta), 1e6);
}

#[test]
fn epsilon_is_the_exact_f32_bit_pattern() {
    let c = parse(&qwen3_kvs().build()).unwrap();
    let FamilyConfig::Qwen3(cfg) = family_config(&c).unwrap();
    assert_eq!(cfg.rms_norm_eps, 1e-6f32.to_bits());
}

#[test]
fn foreign_architecture_is_refused_by_name() {
    let b = GgufBuilder::new().kv_str("general.architecture", "llama").build();
    let c = parse(&b).unwrap();
    match family_config(&c) {
        Err(LoaderError::UnsupportedArchitecture { found }) => assert_eq!(found, "llama"),
        other => panic!("{:?}", other.err()),
    }
}

#[test]
fn missing_key_is_named() {
    // full set minus feed_forward_length
    let b = GgufBuilder::new()
        .kv_str("general.architecture", "qwen3")
        .kv_u32("qwen3.block_count", 2)
        .kv_u32("qwen3.embedding_length", 8)
        .kv_u32("qwen3.attention.head_count", 2)
        .kv_u32("qwen3.attention.head_count_kv", 1)
        .kv_u32("qwen3.attention.key_length", 4)
        .kv_f32("qwen3.attention.layer_norm_rms_epsilon", 1e-6)
        .kv_f32("qwen3.rope.freq_base", 1e6)
        .kv_u32("qwen3.context_length", 512)
        .kv_arr_str("tokenizer.ggml.tokens", &["a"])
        .build();
    let c = parse(&b).unwrap();
    match family_config(&c) {
        Err(LoaderError::MissingKey { key }) => assert_eq!(key, "qwen3.feed_forward_length"),
        other => panic!("{:?}", other.err()),
    }
}

#[test]
fn wrong_value_type_is_named_both_ways() {
    let b = qwen3_kvs().kv_str("qwen3.some_future_key", "irrelevant extra key is fine").build();
    // sanity: extra unknown keys do not bother the config reader
    let c = parse(&b).unwrap();
    assert!(family_config(&c).is_ok());

    // now block_count as a string
    let b = GgufBuilder::new()
        .kv_str("general.architecture", "qwen3")
        .kv_str("qwen3.block_count", "two")
        .kv_arr_str("tokenizer.ggml.tokens", &["a"])
        .build();
    let c = parse(&b).unwrap();
    match family_config(&c) {
        Err(LoaderError::WrongType { key, want, found }) => {
            assert_eq!(key, "qwen3.block_count");
            assert_eq!(want, "u32");
            assert_eq!(found, "string");
        }
        other => panic!("{:?}", other.err()),
    }
}

// Full valid metadata (no tensors) with the tokenizer-facing pieces
// parameterized, for probing the loader's cheap first pass.
fn base_kvs(
    model: &str,
    pre: &str,
    eos: u32,
    tokens: &[&str],
    merges: &[&str],
    template: &str,
) -> GgufBuilder {
    let types: Vec<i32> = tokens.iter().map(|_| 1).collect();
    GgufBuilder::new()
        .kv_str("general.architecture", "qwen3")
        .kv_u32("qwen3.block_count", 1)
        .kv_u32("qwen3.embedding_length", 8)
        .kv_u32("qwen3.feed_forward_length", 16)
        .kv_u32("qwen3.attention.head_count", 2)
        .kv_u32("qwen3.attention.head_count_kv", 1)
        .kv_u32("qwen3.attention.key_length", 4)
        .kv_u32("qwen3.attention.value_length", 4)
        .kv_f32("qwen3.attention.layer_norm_rms_epsilon", 1e-6)
        .kv_f32("qwen3.rope.freq_base", 1e6)
        .kv_u32("qwen3.context_length", 64)
        .kv_str("tokenizer.ggml.model", model)
        .kv_str("tokenizer.ggml.pre", pre)
        .kv_u32("tokenizer.ggml.eos_token_id", eos)
        .kv_arr_str("tokenizer.ggml.tokens", tokens)
        .kv_arr_i32("tokenizer.ggml.token_type", &types)
        .kv_arr_str("tokenizer.ggml.merges", merges)
        .kv_str("tokenizer.chat_template", template)
}

#[test]
fn broken_chat_template_fails_at_the_gate() {
    // an unclosed block is a parse error
    let tokens: Vec<&str> = vec!["a"];
    let b = base_kvs("gpt2", "qwen2", 0, &tokens, &[], "{% if x %}no end");
    match load_bytes(&b.build()) {
        Err(LoaderError::Template { .. }) => {}
        other => panic!("{:?}", other.err()),
    }
}

#[test]
fn foreign_tokenizer_model_and_pre_are_refused_by_name() {
    let b = base_kvs("llama", "qwen2", 0, &["a"], &[], "x");
    match load_bytes(&b.build()) {
        Err(LoaderError::Structure { reason }) => {
            assert!(reason.contains("llama") && reason.contains("gpt2"), "{reason}")
        }
        other => panic!("{:?}", other.err()),
    }

    let b = base_kvs("gpt2", "deepseek", 0, &["a"], &[], "x");
    match load_bytes(&b.build()) {
        Err(LoaderError::Structure { reason }) => {
            assert!(reason.contains("deepseek") && reason.contains("qwen2"), "{reason}")
        }
        other => panic!("{:?}", other.err()),
    }
}

#[test]
fn eos_outside_the_vocab_is_refused() {
    let b = base_kvs("gpt2", "qwen2", 5, &["a", "b"], &[], "x");
    match load_bytes(&b.build()) {
        Err(LoaderError::Structure { reason }) => {
            assert!(reason.contains('5') && reason.contains('2'), "{reason}")
        }
        other => panic!("{:?}", other.err()),
    }
}

#[test]
fn overflowing_config_arithmetic_is_refused_not_panicking() {
    // head_count x key_length overflows u32
    let b = GgufBuilder::new()
        .kv_str("general.architecture", "qwen3")
        .kv_u32("qwen3.block_count", 1)
        .kv_u32("qwen3.embedding_length", 8)
        .kv_u32("qwen3.feed_forward_length", 16)
        .kv_u32("qwen3.attention.head_count", 1_000_000)
        .kv_u32("qwen3.attention.head_count_kv", 1_000_000)
        .kv_u32("qwen3.attention.key_length", 1_000_000)
        .kv_u32("qwen3.attention.value_length", 1_000_000)
        .kv_f32("qwen3.attention.layer_norm_rms_epsilon", 1e-6)
        .kv_f32("qwen3.rope.freq_base", 1e6)
        .kv_u32("qwen3.context_length", 64)
        .kv_arr_str("tokenizer.ggml.tokens", &["a"]);
    match load_bytes(&b.build()) {
        Err(LoaderError::Structure { reason }) => assert!(reason.contains("overflow"), "{reason}"),
        other => panic!("{:?}", other.err()),
    }
}

#[test]
fn value_length_must_equal_key_length() {
    let b = GgufBuilder::new()
        .kv_str("general.architecture", "qwen3")
        .kv_u32("qwen3.block_count", 1)
        .kv_u32("qwen3.embedding_length", 8)
        .kv_u32("qwen3.feed_forward_length", 16)
        .kv_u32("qwen3.attention.head_count", 2)
        .kv_u32("qwen3.attention.head_count_kv", 1)
        .kv_u32("qwen3.attention.key_length", 4)
        .kv_u32("qwen3.attention.value_length", 8)
        .kv_f32("qwen3.attention.layer_norm_rms_epsilon", 1e-6)
        .kv_f32("qwen3.rope.freq_base", 1e6)
        .kv_u32("qwen3.context_length", 64)
        .kv_arr_str("tokenizer.ggml.tokens", &["a"]);
    match load_bytes(&b.build()) {
        Err(LoaderError::Structure { reason }) => {
            assert!(reason.contains("value_length 8") && reason.contains('4'), "{reason}")
        }
        other => panic!("{:?}", other.err()),
    }
}

#[test]
fn quantization_version_is_required_and_gated_when_quantized() {
    let b = base_kvs("gpt2", "qwen2", 0, &["a"], &[], "x").tensor(
        "token_embd.weight",
        &[32, 1],
        GGML_Q8_0,
        quantize_q8_0_ref(&[0.0; 32]),
    );
    match load_bytes(&b.build()) {
        Err(LoaderError::MissingKey { key }) => assert_eq!(key, "general.quantization_version"),
        other => panic!("{:?}", other.err()),
    }

    // wrong version: refused by value
    let b = base_kvs("gpt2", "qwen2", 0, &["a"], &[], "x")
        .kv_u32("general.quantization_version", 3)
        .tensor("token_embd.weight", &[32, 1], GGML_Q8_0, quantize_q8_0_ref(&[0.0; 32]));
    match load_bytes(&b.build()) {
        Err(LoaderError::Structure { reason }) => {
            assert!(reason.contains("quantization_version 3"), "{reason}")
        }
        other => panic!("{:?}", other.err()),
    }
}

#[test]
fn zero_context_length_is_refused() {
    let b = GgufBuilder::new()
        .kv_str("general.architecture", "qwen3")
        .kv_u32("qwen3.block_count", 1)
        .kv_u32("qwen3.embedding_length", 8)
        .kv_u32("qwen3.feed_forward_length", 16)
        .kv_u32("qwen3.attention.head_count", 2)
        .kv_u32("qwen3.attention.head_count_kv", 1)
        .kv_u32("qwen3.attention.key_length", 4)
        .kv_u32("qwen3.attention.value_length", 4)
        .kv_f32("qwen3.attention.layer_norm_rms_epsilon", 1e-6)
        .kv_f32("qwen3.rope.freq_base", 1e6)
        .kv_u32("qwen3.context_length", 0)
        .kv_arr_str("tokenizer.ggml.tokens", &["a"]);
    match load_bytes(&b.build()) {
        Err(LoaderError::Structure { reason }) => assert!(reason.contains("context_length"), "{reason}"),
        other => panic!("{:?}", other.err()),
    }
}

#[test]
fn non_finite_or_non_positive_float_knobs_are_refused() {
    for (eps, theta) in [(f32::NAN, 1e6), (1e-6, 0.0), (-1e-6, 1e6), (1e-6, f32::INFINITY)] {
        let b = GgufBuilder::new()
            .kv_str("general.architecture", "qwen3")
            .kv_u32("qwen3.block_count", 1)
            .kv_u32("qwen3.embedding_length", 8)
            .kv_u32("qwen3.feed_forward_length", 16)
            .kv_u32("qwen3.attention.head_count", 2)
            .kv_u32("qwen3.attention.head_count_kv", 1)
            .kv_u32("qwen3.attention.key_length", 4)
            .kv_u32("qwen3.attention.value_length", 4)
            .kv_f32("qwen3.attention.layer_norm_rms_epsilon", eps)
            .kv_f32("qwen3.rope.freq_base", theta)
            .kv_u32("qwen3.context_length", 64)
            .kv_arr_str("tokenizer.ggml.tokens", &["a"]);
        match load_bytes(&b.build()) {
            Err(LoaderError::Structure { reason }) => assert!(reason.contains("finite"), "{reason}"),
            other => panic!("eps {eps} theta {theta}: {:?}", other.err()),
        }
    }
}

#[test]
fn non_bool_add_bos_token_is_a_type_error() {
    let b = base_kvs("gpt2", "qwen2", 0, &["a"], &[], "x").kv_u32("tokenizer.ggml.add_bos_token", 1);
    match load_bytes(&b.build()) {
        Err(LoaderError::WrongType { key, want, .. }) => {
            assert_eq!(key, "tokenizer.ggml.add_bos_token");
            assert_eq!(want, "bool");
        }
        other => panic!("{:?}", other.err()),
    }
}

// ------------------------------------------------ refusal texts, exactly

fn build_refusal(y: &Yamf) -> String {
    match from_yamf(y) {
        Ok(_) => panic!("must refuse"),
        Err(TokenizerError::Build { reason }) => reason,
        Err(e) => panic!("want Build, got {}", e.to_string()),
    }
}

#[test]
fn missing_alphabet_char_is_named_by_hex_byte_and_char() {
    let mut y = yamf();
    let last = y.tokenizer.tokens.len() - 1;
    y.tokenizer.tokens[last] = "zz".to_string();
    assert_eq!(
        build_refusal(&y),
        "byte-level alphabet incomplete: byte 0xFF (char '\u{ff}') has no vocab entry"
    );
}

#[test]
fn non_normal_alphabet_char_is_named_with_its_escape() {
    let mut y = yamf();
    let quote = y.tokenizer.tokens.iter().position(|t| t == "'").unwrap();
    y.tokenizer.token_types[quote] = TokenType::Control;
    assert_eq!(
        build_refusal(&y),
        "byte-level alphabet entry for byte 0x27 (char '\\'') is not Normal-typed"
    );
}

#[test]
fn duplicate_tokens_report_the_distinct_count() {
    let mut y = yamf();
    y.tokenizer.tokens[1] = "a".to_string();
    assert_eq!(
        build_refusal(&y),
        "269 tokens but only 268 distinct strings; duplicates shadow ids"
    );
}

#[test]
fn merge_refusals_name_the_piece() {
    let mut y = yamf();
    y.tokenizer.merges.push(("nosuch".to_string(), "token".to_string()));
    assert_eq!(build_refusal(&y), "merge references token \"nosuch\" not in the vocab");

    let mut y = yamf();
    y.tokenizer.merges.push(("<think>".to_string(), "a".to_string()));
    assert_eq!(build_refusal(&y), "merge references non-Normal token \"<think>\"");

    let mut y = yamf();
    y.tokenizer.merges.push(("a".to_string(), "b".to_string()));
    assert_eq!(build_refusal(&y), "duplicate merge \"a b\" would silently change its rank");
}

#[test]
fn long_pre_ids_are_cut_to_64_chars() {
    let mut y = yamf();
    y.tokenizer.pre = "p".repeat(70);
    assert_eq!(
        build_refusal(&y),
        format!("pre-tokenizer id \"{}\"; this build supports: qwen2", "p".repeat(64))
    );
}

#[test]
fn leftovers_are_named_alphabetically() {
    let mut y = yamf();
    for name in ["zeta.weight", "beta.weight", "delta.weight", "alpha.weight"] {
        let t = RawTensor { shape: vec![1], values: Decoded::F32 { bits: vec![0] } };
        y.tensors.insert(name.to_string(), t);
    }
    let Err(err) = family_from_yamf(&y) else { panic!("leftovers must refuse") };
    assert_eq!(
        err.to_string(),
        "family build failed: 4 leftover tensors after building blocks (first: [\"alpha.weight\", \"beta.weight\", \"delta.weight\"])"
    );
}

#[test]
fn loaded_bundle_without_the_byte_alphabet_refuses_to_build() {
    // the loader accepts the 10-token fixture; the tokenizer's border
    // needs the 256 byte-level base tokens
    let y = loaded(&mini().build());
    assert_eq!(
        build_refusal(&y),
        "byte-level alphabet incomplete: byte 0x00 (char '\u{100}') has no vocab entry"
    );
}

#[test]
fn loaded_bundle_with_a_control_alphabet_entry_refuses_to_build() {
    // the loader checks that the alphabet is present, not its classes
    let mut types = chat_types(chat_tokens().len());
    types[0] = 3; // "a", the alphabet entry for byte 0x61, typed Control
    let bytes = chat_mini().without_kv("tokenizer.ggml.token_type").kv_arr_i32("tokenizer.ggml.token_type", &types).build();
    let y = match load_bytes(&bytes) {
        Ok(y) => y,
        Err(e) => panic!("the loader accepts it: {}", e.to_string()),
    };
    assert_eq!(
        build_refusal(&y),
        "byte-level alphabet entry for byte 0x61 (char 'a') is not Normal-typed"
    );
}

#[test]
fn family_refusals_name_the_first_tensor_in_expected_order() {
    let mut y = yamf();
    y.tensors.remove("blk.0.ffn_up.weight").unwrap();
    y.tensors.remove("blk.0.attn_q.weight").unwrap();
    let Err(err) = family_from_yamf(&y) else { panic!("must refuse") };
    assert_eq!(
        err.to_string(),
        "family build failed: required tensor \"blk.0.attn_q.weight\" absent from Yamf"
    );

    let mut y = yamf();
    let bad = RawTensor { shape: vec![2, 2], values: Decoded::F32 { bits: vec![0; 4] } };
    y.tensors.insert("blk.0.attn_k_norm.weight".to_string(), bad);
    let Err(err) = family_from_yamf(&y) else { panic!("must refuse") };
    assert_eq!(
        err.to_string(),
        "family build failed: tensor \"blk.0.attn_k_norm.weight\" shape [2, 2], expected [16]"
    );
}

#[test]
fn misshapen_untied_head_is_refused_with_both_shapes() {
    let mut y = yamf();
    let head = RawTensor { shape: vec![32, 269], values: Decoded::F32 { bits: vec![0; 32 * 269] } };
    y.tensors.insert("output.weight".to_string(), head);
    let Err(err) = family_from_yamf(&y) else { panic!("must refuse") };
    assert_eq!(
        err.to_string(),
        "family build failed: tensor \"output.weight\" shape [32, 269], expected [269, 32]"
    );
}
