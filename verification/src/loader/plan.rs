//! The loader's second pass: the tensor contract, still without weight
//! allocation. Every tensor must be one the family explains, with the
//! family's shape (GGUF dims reversed into row-major order), a decodable
//! type and a byte range inside the data region; ranges may not overlap,
//! the padding around them is zero, no expected tensor is missing, and
//! the decoded weights fit the memory budget.

use vstd::prelude::*;
use vstd::string::*;
use vstd::utf8::*;

use crate::loader::config::{spec_check_config, Qwen3Config};
use crate::loader::container::{tensor_names, Container, ContainerSpec, TensorInfo, TensorSpec};
use crate::loader::dequant::{spec_tensor_byte_len, tensor_byte_len};
use crate::loader::error::{ErrKind, LoaderError};
use crate::loader::index::VocabIndex;
use crate::loader::vocab::{index_of, lemma_index_of, views};
use crate::text::{dec, push_dec, push_str, text};

verus! {

/// The decoded-memory budget: 120 GiB. Dequantizing expands Q8_0 about
/// 3.76 times while the raw file bytes are still held; 120 GiB fits the
/// largest planned checkpoint, anything bigger refuses cleanly instead
/// of aborting on allocation.
pub const MAX_DECODED_BYTES: u64 = 128_849_018_880;

// ------------------------------------------------------ expected set

/// The eleven tensors of every transformer block, in the order listed.
pub open spec fn block_suffixes() -> Seq<Seq<char>> {
    seq![
        "attn_norm"@,
        "attn_q"@,
        "attn_k"@,
        "attn_v"@,
        "attn_q_norm"@,
        "attn_k_norm"@,
        "attn_output"@,
        "ffn_norm"@,
        "ffn_gate"@,
        "ffn_up"@,
        "ffn_down"@,
    ]
}

/// The row-major shape of block tensor `k`.
pub open spec fn block_shape(cfg: Qwen3Config, k: int) -> Seq<usize> {
    let hidden = cfg.hidden_size as usize;
    let ffn = cfg.intermediate_size as usize;
    let q_rows = (cfg.num_attention_heads * cfg.head_dim) as usize;
    let kv_rows = (cfg.num_key_value_heads * cfg.head_dim) as usize;
    let head_dim = cfg.head_dim as usize;
    if k == 0 {
        seq![hidden]
    } else if k == 1 {
        seq![q_rows, hidden]
    } else if k == 2 {
        seq![kv_rows, hidden]
    } else if k == 3 {
        seq![kv_rows, hidden]
    } else if k == 4 {
        seq![head_dim]
    } else if k == 5 {
        seq![head_dim]
    } else if k == 6 {
        seq![hidden, q_rows]
    } else if k == 7 {
        seq![hidden]
    } else if k == 8 {
        seq![ffn, hidden]
    } else if k == 9 {
        seq![ffn, hidden]
    } else {
        seq![hidden, ffn]
    }
}

/// `blk.{n}.{suffix}.weight`.
pub open spec fn block_name(n: nat, k: int) -> Seq<char> {
    "blk."@ + dec(n) + "."@ + block_suffixes()[k] + ".weight"@
}

/// Entry `i` of the expected set: two global tensors, then eleven per
/// layer.
pub open spec fn expected_entry(cfg: Qwen3Config, i: int) -> (Seq<char>, Seq<usize>) {
    if i == 0 {
        ("token_embd.weight"@, seq![cfg.vocab_size as usize, cfg.hidden_size as usize])
    } else if i == 1 {
        ("output_norm.weight"@, seq![cfg.hidden_size as usize])
    } else {
        (block_name(((i - 2) / 11) as nat, (i - 2) % 11), block_shape(cfg, (i - 2) % 11))
    }
}

/// The tensor set a qwen3 checkpoint must carry, with shapes in row-major
/// order.
pub open spec fn expected_entries(cfg: Qwen3Config) -> Seq<(Seq<char>, Seq<usize>)> {
    Seq::new((2 + 11 * cfg.num_hidden_layers) as nat, |i: int| expected_entry(cfg, i))
}

pub open spec fn entry_names(e: Seq<(Seq<char>, Seq<usize>)>) -> Seq<Seq<char>> {
    e.map_values(|x: (Seq<char>, Seq<usize>)| x.0)
}

/// The shape the family expects for a tensor of this name.
/// `output.weight` is the one optional extra: present when a size unties
/// its lm head, absent (tied) in Qwen3-0.6B.
pub open spec fn expected_shape(cfg: Qwen3Config, name: Seq<char>) -> Option<Seq<usize>> {
    match index_of(entry_names(expected_entries(cfg)), name) {
        Some(i) => Some(expected_entries(cfg)[i].1),
        None => if name == "output.weight"@ {
            Some(seq![cfg.vocab_size as usize, cfg.hidden_size as usize])
        } else {
            None
        },
    }
}

/// The eleven block suffixes are pairwise distinct.
proof fn lemma_suffixes_distinct(k1: int, k2: int)
    requires
        0 <= k1 < 11,
        0 <= k2 < 11,
        block_suffixes()[k1] == block_suffixes()[k2],
    ensures
        k1 == k2,
{
    reveal_strlit("attn_norm");
    reveal_strlit("attn_q");
    reveal_strlit("attn_k");
    reveal_strlit("attn_v");
    reveal_strlit("attn_q_norm");
    reveal_strlit("attn_k_norm");
    reveal_strlit("attn_output");
    reveal_strlit("ffn_norm");
    reveal_strlit("ffn_gate");
    reveal_strlit("ffn_up");
    reveal_strlit("ffn_down");
    let a = block_suffixes()[k1];
    let b = block_suffixes()[k2];
    assert(a.len() == b.len());
    assert(a[0] == b[0]);
    assert(a.len() >= 6 ==> a[4] == b[4] && a[5] == b[5]);
}

/// A block tensor's name gives back its layer and its slot.
proof fn lemma_block_name_injective(n1: nat, k1: int, n2: nat, k2: int)
    requires
        0 <= k1 < 11,
        0 <= k2 < 11,
        block_name(n1, k1) == block_name(n2, k2),
    ensures
        n1 == n2,
        k1 == k2,
{
    reveal_strlit("blk.");
    reveal_strlit(".");
    reveal_strlit(".weight");
    crate::text::lemma_dec_digits(n1);
    crate::text::lemma_dec_digits(n2);
    let d1 = dec(n1);
    let d2 = dec(n2);
    let s1 = block_name(n1, k1);
    let s2 = block_name(n2, k2);
    let l1 = d1.len() as int;
    let l2 = d2.len() as int;
    if l1 < l2 {
        assert(s1[4 + l1] == '.');
        assert(s2[4 + l1] == d2[l1]);
        assert(crate::text::is_digit(d2[l1]));
    }
    if l2 < l1 {
        assert(s2[4 + l2] == '.');
        assert(s1[4 + l2] == d1[l2]);
        assert(crate::text::is_digit(d1[l2]));
    }
    assert(l1 == l2);
    assert(s1.subrange(4, 4 + l1) =~= d1);
    assert(s2.subrange(4, 4 + l2) =~= d2);
    crate::text::lemma_dec_injective(n1, n2);
    let x1 = block_suffixes()[k1];
    let x2 = block_suffixes()[k2];
    assert(s1.subrange(5 + l1, s1.len() - 7) =~= x1);
    assert(s2.subrange(5 + l2, s2.len() - 7) =~= x2);
    lemma_suffixes_distinct(k1, k2);
}

/// In every layer the attention projections are each other's transpose:
/// `blk.N.attn_q.weight` maps the hidden state to the concatenated query
/// heads, row-major [num_attention_heads * head_dim, hidden_size], and
/// `blk.N.attn_output.weight` maps them back, [hidden_size,
/// num_attention_heads * head_dim]. The two differ whenever a model's
/// query rows differ from its hidden size (Qwen3-0.6B: 2048 against 1024).
pub proof fn lemma_attention_projection_shapes(cfg: Qwen3Config, n: nat)
    requires
        n < cfg.num_hidden_layers,
        cfg.num_attention_heads * cfg.head_dim <= u32::MAX,
    ensures
        expected_shape(cfg, "blk."@ + dec(n) + ".attn_q.weight"@) matches Some(s) && s.len() == 2
            && s[0] == cfg.num_attention_heads * cfg.head_dim && s[1] == cfg.hidden_size,
        expected_shape(cfg, "blk."@ + dec(n) + ".attn_output.weight"@) matches Some(s) && s.len()
            == 2 && s[0] == cfg.hidden_size && s[1] == cfg.num_attention_heads * cfg.head_dim,
{
    reveal_strlit(".");
    reveal_strlit(".weight");
    reveal_strlit("attn_q");
    reveal_strlit("attn_output");
    reveal_strlit(".attn_q.weight");
    reveal_strlit(".attn_output.weight");
    lemma_expected_names_distinct(cfg);
    let es = expected_entries(cfg);
    let iq: int = 2 + 11 * (n as int) + 1;
    let io: int = 2 + 11 * (n as int) + 6;
    assert(iq < es.len() && io < es.len()) by (nonlinear_arith)
        requires
            n < cfg.num_hidden_layers,
            es.len() == 2 + 11 * cfg.num_hidden_layers,
            iq == 2 + 11 * n + 1,
            io == 2 + 11 * n + 6,
    ;
    assert((iq - 2) / 11 == n && (iq - 2) % 11 == 1) by (nonlinear_arith)
        requires
            iq == 2 + 11 * n + 1,
    ;
    assert((io - 2) / 11 == n && (io - 2) % 11 == 6) by (nonlinear_arith)
        requires
            io == 2 + 11 * n + 6,
    ;
    assert(es[iq].0 =~= "blk."@ + dec(n) + ".attn_q.weight"@);
    assert(es[io].0 =~= "blk."@ + dec(n) + ".attn_output.weight"@);
    assert(expected_shape(cfg, es[iq].0) == Some(es[iq].1));
    assert(expected_shape(cfg, es[io].0) == Some(es[io].1));
}

/// No two expected tensors share a name, and the optional untied head
/// is not among them: so each expected name asks for its own shape.
pub proof fn lemma_expected_names_distinct(cfg: Qwen3Config)
    ensures
        forall|i: int, j: int|
            0 <= i < j < expected_entries(cfg).len() ==> (#[trigger] expected_entries(cfg)[i]).0
                != (#[trigger] expected_entries(cfg)[j]).0,
        !entry_names(expected_entries(cfg)).contains("output.weight"@),
        forall|i: int|
            0 <= i < expected_entries(cfg).len() ==> expected_shape(
                cfg,
                (#[trigger] expected_entries(cfg)[i]).0,
            ) == Some(expected_entries(cfg)[i].1),
{
    reveal_strlit("token_embd.weight");
    reveal_strlit("output_norm.weight");
    reveal_strlit("output.weight");
    reveal_strlit("blk.");
    let es = expected_entries(cfg);
    let names = entry_names(es);
    assert forall|i: int, j: int| 0 <= i < j < es.len() implies (#[trigger] es[i]).0 != (
    #[trigger] es[j]).0 by {
        if es[i].0 == es[j].0 {
            if i >= 2 {
                lemma_block_name_injective(
                    ((i - 2) / 11) as nat,
                    (i - 2) % 11,
                    ((j - 2) / 11) as nat,
                    (j - 2) % 11,
                );
                assert(i - 2 == 11 * ((i - 2) / 11) + (i - 2) % 11);
                assert(j - 2 == 11 * ((j - 2) / 11) + (j - 2) % 11);
            } else if j >= 2 {
                assert(es[j].0[0] == 'b');
                assert(es[i].0[0] != 'b');
            } else {
                assert(es[i].0[0] != es[j].0[0]);
            }
        }
    }
    assert forall|i: int| 0 <= i < names.len() implies names[i] != "output.weight"@ by {
        if names[i] == "output.weight"@ {
            if i >= 2 {
                assert(names[i][0] == 'b');
            } else if i == 1 {
                assert(names[i].len() != "output.weight"@.len());
            } else {
                assert(names[i][0] != 'o');
            }
        }
    }
    assert forall|i: int| 0 <= i < es.len() implies expected_shape(cfg, (#[trigger] es[i]).0)
        == Some(es[i].1) by {
        lemma_index_of(names, es[i].0);
        assert(names[i] == es[i].0);
        let p = index_of(names, es[i].0)->Some_0;
        if p != i {
            if p < i {
                assert(es[p].0 == names[p]);
            }
        }
    }
}

// ------------------------------------------------------ one tensor

/// The last dimension (highest index) that does not fit a `usize`.
pub open spec fn last_wide_dim(d: Seq<u64>) -> u64
    decreases d.len(),
{
    if d.len() == 0 {
        0
    } else if d.last() > usize::MAX {
        d.last()
    } else {
        last_wide_dim(d.drop_last())
    }
}

/// A dimension that does not fit, with every later one fitting, is the
/// last that does not.
proof fn lemma_last_wide_dim(d: Seq<u64>, j: int)
    requires
        0 <= j < d.len(),
        d[j] > usize::MAX,
        forall|k: int| j < k < d.len() ==> d[k] <= usize::MAX,
    ensures
        last_wide_dim(d) == d[j],
    decreases d.len(),
{
    if j < d.len() - 1 {
        lemma_last_wide_dim(d.drop_last(), j);
    }
}

/// Every dimension fits a `usize`.
pub open spec fn dims_fit(d: Seq<u64>) -> bool {
    forall|k: int| 0 <= k < d.len() ==> d[k] <= usize::MAX
}

/// The row-major shape: the file's ne dims, reversed.
pub open spec fn shape_of(d: Seq<u64>) -> Seq<usize> {
    Seq::new(d.len(), |k: int| d[d.len() - 1 - k] as usize)
}

/// The element count: the product of the dims.
pub open spec fn dims_product(d: Seq<u64>) -> int
    decreases d.len(),
{
    if d.len() == 0 {
        1
    } else {
        dims_product(d.drop_last()) * d.last()
    }
}

/// What the contract records of one tensor.
pub ghost struct PlanSpec {
    pub shape: Seq<usize>,
    pub n_elems: u64,
    pub byte_len: u64,
}

/// One tensor against the contract: dims that fit, a name the family
/// expects, its shape, an element count that fits, a decodable type, and
/// a byte range inside the data region of `region` bytes.
pub open spec fn spec_plan_one(cfg: Qwen3Config, t: TensorSpec, region: int) -> Result<
    PlanSpec,
    ErrKind,
> {
    if !dims_fit(t.dims) {
        Err(
            ErrKind::Structure {
                reason: "tensor \""@ + t.name + "\" dimension "@ + dec(last_wide_dim(t.dims) as nat)
                    + " overflows usize"@,
            },
        )
    } else {
        let shape = shape_of(t.dims);
        match expected_shape(cfg, t.name) {
            None => Err(ErrKind::UnexpectedTensor { name: t.name }),
            Some(want) => if shape != want {
                Err(ErrKind::WrongShape { name: t.name, want, found: shape })
            } else if dims_product(t.dims) > u64::MAX {
                Err(ErrKind::Structure { reason: "tensor \""@ + t.name + "\" element count overflows"@ })
            } else {
                let n = dims_product(t.dims) as u64;
                match spec_tensor_byte_len(t.type_id, n, t.dims[0], t.name) {
                    Err(e) => Err(e),
                    Ok(bl) => if t.offset + bl > region {
                        if t.offset + bl > u64::MAX {
                            Err(ErrKind::Structure { reason: "tensor \""@ + t.name + "\" range overflows"@ })
                        } else {
                            Err(
                                ErrKind::Structure {
                                    reason: "tensor \""@ + t.name + "\" ends at data byte "@ + dec(
                                        (t.offset + bl) as nat,
                                    ) + ", region has "@ + dec(region as nat),
                                },
                            )
                        }
                    } else {
                        Ok(PlanSpec { shape, n_elems: n, byte_len: bl })
                    },
                }
            },
        }
    }
}

/// Every tensor against the contract, in file order; the first refusal
/// wins.
pub open spec fn spec_plan(cfg: Qwen3Config, ts: Seq<TensorSpec>, region: int) -> Result<
    Seq<PlanSpec>,
    ErrKind,
>
    decreases ts.len(),
{
    if ts.len() == 0 {
        Ok(Seq::empty())
    } else {
        match spec_plan(cfg, ts.drop_last(), region) {
            Err(e) => Err(e),
            Ok(p) => match spec_plan_one(cfg, ts.last(), region) {
                Err(e) => Err(e),
                Ok(x) => Ok(p.push(x)),
            },
        }
    }
}

/// The shape of block tensor `k`, built.
fn block_shape_exec(cfg: &Qwen3Config, k: usize) -> (r: Vec<usize>)
    requires
        k < 11,
        cfg.num_attention_heads * cfg.head_dim <= u32::MAX,
        cfg.num_key_value_heads * cfg.head_dim <= u32::MAX,
    ensures
        r@ == block_shape(*cfg, k as int),
{
    let hidden = cfg.hidden_size as usize;
    let ffn = cfg.intermediate_size as usize;
    let q_rows = (cfg.num_attention_heads * cfg.head_dim) as usize;
    let kv_rows = (cfg.num_key_value_heads * cfg.head_dim) as usize;
    let head_dim = cfg.head_dim as usize;
    let mut r: Vec<usize> = Vec::new();
    if k == 0 || k == 7 {
        r.push(hidden);
    } else if k == 1 {
        r.push(q_rows);
        r.push(hidden);
    } else if k == 2 || k == 3 {
        r.push(kv_rows);
        r.push(hidden);
    } else if k == 4 || k == 5 {
        r.push(head_dim);
    } else if k == 6 {
        r.push(hidden);
        r.push(q_rows);
    } else if k == 8 || k == 9 {
        r.push(ffn);
        r.push(hidden);
    } else {
        r.push(hidden);
        r.push(ffn);
    }
    proof {
        assert(r@ =~= block_shape(*cfg, k as int));
    }
    r
}

fn block_suffix(k: usize) -> (r: &'static str)
    requires
        k < 11,
    ensures
        r@ == block_suffixes()[k as int],
{
    if k == 0 {
        "attn_norm"
    } else if k == 1 {
        "attn_q"
    } else if k == 2 {
        "attn_k"
    } else if k == 3 {
        "attn_v"
    } else if k == 4 {
        "attn_q_norm"
    } else if k == 5 {
        "attn_k_norm"
    } else if k == 6 {
        "attn_output"
    } else if k == 7 {
        "ffn_norm"
    } else if k == 8 {
        "ffn_gate"
    } else if k == 9 {
        "ffn_up"
    } else {
        "ffn_down"
    }
}

pub open spec fn entry_views(e: Seq<(String, Vec<usize>)>) -> Seq<(Seq<char>, Seq<usize>)> {
    e.map_values(|x: (String, Vec<usize>)| (x.0@, x.1@))
}

/// The expected tensor set, built in the order of `expected_entries`.
pub fn expected_list(cfg: &Qwen3Config) -> (r: Vec<(String, Vec<usize>)>)
    requires
        cfg.num_attention_heads * cfg.head_dim <= u32::MAX,
        cfg.num_key_value_heads * cfg.head_dim <= u32::MAX,
    ensures
        entry_views(r@) == expected_entries(*cfg),
{
    let ghost want = expected_entries(*cfg);
    let mut r: Vec<(String, Vec<usize>)> = Vec::new();
    let mut first: Vec<usize> = Vec::new();
    first.push(cfg.vocab_size as usize);
    first.push(cfg.hidden_size as usize);
    r.push((text("token_embd.weight"), first));
    let mut second: Vec<usize> = Vec::new();
    second.push(cfg.hidden_size as usize);
    r.push((text("output_norm.weight"), second));
    proof {
        assert(first@ =~= seq![cfg.vocab_size as usize, cfg.hidden_size as usize]);
        assert(second@ =~= seq![cfg.hidden_size as usize]);
        assert(entry_views(r@) =~= want.take(2));
    }
    let mut n: u32 = 0;
    while n < cfg.num_hidden_layers
        invariant
            cfg.num_attention_heads * cfg.head_dim <= u32::MAX,
            cfg.num_key_value_heads * cfg.head_dim <= u32::MAX,
            want == expected_entries(*cfg),
            n <= cfg.num_hidden_layers,
            entry_views(r@) == want.take(2 + 11 * n),
        decreases cfg.num_hidden_layers - n,
    {
        let mut k: usize = 0;
        while k < 11
            invariant
                cfg.num_attention_heads * cfg.head_dim <= u32::MAX,
                cfg.num_key_value_heads * cfg.head_dim <= u32::MAX,
                want == expected_entries(*cfg),
                n < cfg.num_hidden_layers,
                k <= 11,
                entry_views(r@) == want.take(2 + 11 * n + k),
            decreases 11 - k,
        {
            let mut name = text("blk.");
            push_dec(&mut name, n as u64);
            push_str(&mut name, ".");
            push_str(&mut name, block_suffix(k));
            push_str(&mut name, ".weight");
            let shape = block_shape_exec(cfg, k);
            let ghost before = r@;
            r.push((name, shape));
            proof {
                let i: int = 2 + 11 * n + k;
                assert((i - 2) / 11 == n as int && (i - 2) % 11 == k as int) by (nonlinear_arith)
                    requires
                        i == 2 + 11 * n + k,
                        0 <= k < 11,
                        0 <= n,
                ;
                assert(name@ =~= block_name(n as nat, k as int));
                assert(want[i] == expected_entry(*cfg, i));
                assert(entry_views(r@) =~= entry_views(before).push(want[i]));
                assert(want.take(i + 1) =~= want.take(i).push(want[i]));
            }
            k = k + 1;
        }
        n = n + 1;
    }
    proof {
        assert(want.take(want.len() as int) =~= want);
    }
    r
}

/// A copy of `v`.
pub fn copy_usizes(v: &Vec<usize>) -> (r: Vec<usize>)
    ensures
        r@ == v@,
{
    let mut r: Vec<usize> = Vec::with_capacity(v.len());
    let mut i: usize = 0;
    while i < v.len()
        invariant
            i <= v@.len(),
            r@ == v@.take(i as int),
        decreases v.len() - i,
    {
        r.push(v[i]);
        proof {
            assert(v@.take(i + 1) =~= v@.take(i as int).push(v@[i as int]));
        }
        i = i + 1;
    }
    proof {
        assert(v@.take(v@.len() as int) =~= v@);
    }
    r
}

/// Whether two shapes are equal.
pub fn same_shape(a: &Vec<usize>, b: &Vec<usize>) -> (r: bool)
    ensures
        r == (a@ == b@),
{
    if a.len() != b.len() {
        return false;
    }
    let mut i: usize = 0;
    while i < a.len()
        invariant
            a@.len() == b@.len(),
            i <= a@.len(),
            forall|k: int| 0 <= k < i ==> a@[k] == b@[k],
        decreases a.len() - i,
    {
        if a[i] != b[i] {
            return false;
        }
        i = i + 1;
    }
    proof {
        assert(a@ =~= b@);
    }
    true
}

/// The row-major shape of a tensor, when every dimension fits a `usize`.
fn shape_from_dims(d: &Vec<u64>) -> (r: Result<Vec<usize>, u64>)
    ensures
        r is Ok <==> dims_fit(d@),
        r matches Ok(s) ==> s@ == shape_of(d@),
        r matches Err(v) ==> v > usize::MAX && v == last_wide_dim(d@),
{
    let n = d.len();
    let mut s: Vec<usize> = Vec::with_capacity(n);
    let mut i: usize = 0;
    while i < n
        invariant
            n == d@.len(),
            i <= n,
            s@.len() == i,
            forall|k: int| n - i <= k < n ==> d@[k] <= usize::MAX,
            forall|k: int| 0 <= k < i ==> s@[k] == d@[n - 1 - k] as usize,
        decreases n - i,
    {
        let v = d[n - 1 - i];
        if v > usize::MAX as u64 {
            proof {
                lemma_last_wide_dim(d@, n - 1 - i);
            }
            return Err(v);
        }
        let ghost before = s@;
        s.push(v as usize);
        proof {
            assert(s@ == before.push(v as usize));
            assert forall|k: int| 0 <= k < i + 1 implies s@[k] == d@[n - 1 - k] as usize by {
                if k < i {
                    assert(s@[k] == before[k]);
                }
            }
        }
        i = i + 1;
    }
    proof {
        assert(s@ =~= shape_of(d@));
    }
    Ok(s)
}

proof fn lemma_product_step(d: Seq<u64>, i: int)
    requires
        0 <= i < d.len(),
    ensures
        dims_product(d.take(i + 1)) == dims_product(d.take(i)) * d[i],
{
    assert(d.take(i + 1).drop_last() =~= d.take(i));
}

proof fn lemma_product_pos(d: Seq<u64>, j: int)
    requires
        0 <= j <= d.len(),
        forall|k: int| 0 <= k < d.len() ==> d[k] != 0,
    ensures
        1 <= dims_product(d.take(j)),
    decreases j,
{
    if j == 0 {
        assert(d.take(0) =~= Seq::<u64>::empty());
    } else {
        lemma_product_pos(d, j - 1);
        lemma_product_step(d, j - 1);
        let a = dims_product(d.take(j - 1));
        let b = d[j - 1] as int;
        assert(1 <= a * b) by (nonlinear_arith)
            requires
                a >= 1,
                b >= 1,
        ;
    }
}

proof fn lemma_product_mono(d: Seq<u64>, i: int, j: int)
    requires
        0 <= i <= j <= d.len(),
        forall|k: int| 0 <= k < d.len() ==> d[k] != 0,
    ensures
        1 <= dims_product(d.take(i)) <= dims_product(d.take(j)),
    decreases j,
{
    lemma_product_pos(d, i);
    if i == j {
    } else {
        lemma_product_mono(d, i, j - 1);
        lemma_product_step(d, j - 1);
        lemma_product_pos(d, j - 1);
        let a = dims_product(d.take(j - 1));
        let b = d[j - 1] as int;
        assert(a <= a * b) by (nonlinear_arith)
            requires
                a >= 1,
                b >= 1,
        ;
    }
}

/// The element count of a tensor, when it fits a u64.
fn element_total(d: &Vec<u64>) -> (r: Option<u64>)
    requires
        forall|k: int| 0 <= k < d@.len() ==> d@[k] != 0,
    ensures
        r is Some <==> dims_product(d@) <= u64::MAX,
        r matches Some(n) ==> n == dims_product(d@),
{
    let mut n: u64 = 1;
    let mut i: usize = 0;
    proof {
        assert(d@.take(0) =~= Seq::<u64>::empty());
    }
    while i < d.len()
        invariant
            i <= d@.len(),
            forall|k: int| 0 <= k < d@.len() ==> d@[k] != 0,
            n == dims_product(d@.take(i as int)),
        decreases d.len() - i,
    {
        proof {
            lemma_product_step(d@, i as int);
        }
        match n.checked_mul(d[i]) {
            Some(m) => {
                n = m;
            },
            None => {
                proof {
                    lemma_product_mono(d@, i + 1, d@.len() as int);
                    assert(d@.take(d@.len() as int) =~= d@);
                }
                return None;
            },
        }
        i = i + 1;
    }
    proof {
        assert(d@.take(d@.len() as int) =~= d@);
    }
    Some(n)
}

fn tensor_message(name: &str, suffix: &str) -> (e: LoaderError)
    ensures
        e@ == (ErrKind::Structure { reason: "tensor \""@ + name@ + suffix@ }),
{
    let mut reason = text("tensor \"");
    push_str(&mut reason, name);
    push_str(&mut reason, suffix);
    LoaderError::Structure { reason }
}

/// One tensor against the contract; the shape, element count and byte
/// length it carries.
fn plan_tensor(
    cfg: &Qwen3Config,
    expected: &Vec<(String, Vec<usize>)>,
    names: &Vec<String>,
    index: &VocabIndex,
    t: &TensorInfo,
    region: usize,
) -> (r: Result<(Vec<usize>, u64, u64), LoaderError>)
    requires
        entry_views(expected@) == expected_entries(*cfg),
        views(names@) == entry_names(expected_entries(*cfg)),
        index.indexes(views(names@)),
        1 <= t.dims@.len(),
        forall|k: int| 0 <= k < t.dims@.len() ==> t.dims@[k] != 0,
    ensures
        match spec_plan_one(*cfg, t@, region as int) {
            Ok(p) => r matches Ok((s, n, b)) && s@ == p.shape && n == p.n_elems && b == p.byte_len,
            Err(e) => r matches Err(x) && x@ == e,
        },
{
    // dims arrive in ne order (dims[0] contiguous); ours reverse
    let shape = match shape_from_dims(&t.dims) {
        Ok(s) => s,
        Err(d) => {
            let mut reason = text("tensor \"");
            push_str(&mut reason, t.name.as_str());
            push_str(&mut reason, "\" dimension ");
            push_dec(&mut reason, d);
            push_str(&mut reason, " overflows usize");
            return Err(LoaderError::Structure { reason });
        },
    };
    proof {
        lemma_index_of(views(names@), t.name@);
    }
    let want = match index.find(names, t.name.as_str()) {
        Some(i) => {
            proof {
                assert(entry_names(expected_entries(*cfg))[i as int] == expected_entries(*cfg)[i as int].0);
                assert(entry_views(expected@)[i as int] == expected_entries(*cfg)[i as int]);
            }
            copy_usizes(&expected[i].1)
        },
        None => {
            if str_eq_output(t.name.as_str()) {
                let mut w: Vec<usize> = Vec::new();
                w.push(cfg.vocab_size as usize);
                w.push(cfg.hidden_size as usize);
                proof {
                    assert(w@ =~= seq![cfg.vocab_size as usize, cfg.hidden_size as usize]);
                }
                w
            } else {
                return Err(LoaderError::UnexpectedTensor { name: t.name.clone() });
            }
        },
    };
    if !same_shape(&shape, &want) {
        return Err(LoaderError::WrongShape { name: t.name.clone(), want, found: shape });
    }
    let n = match element_total(&t.dims) {
        Some(n) => n,
        None => {
            return Err(tensor_message(t.name.as_str(), "\" element count overflows"));
        },
    };
    let byte_len = tensor_byte_len(t.type_id, n, t.dims[0], t.name.as_str())?;
    let end = match t.offset.checked_add(byte_len) {
        Some(e) => e,
        None => {
            return Err(tensor_message(t.name.as_str(), "\" range overflows"));
        },
    };
    if end > region as u64 {
        let mut reason = text("tensor \"");
        push_str(&mut reason, t.name.as_str());
        push_str(&mut reason, "\" ends at data byte ");
        push_dec(&mut reason, end);
        push_str(&mut reason, ", region has ");
        push_dec(&mut reason, region as u64);
        return Err(LoaderError::Structure { reason });
    }
    Ok((shape, n, byte_len))
}

fn str_eq_output(name: &str) -> (r: bool)
    ensures
        r == (name@ == "output.weight"@),
{
    crate::text::str_eq(name, "output.weight")
}

/// What the contract records of each tensor, in file order.
pub open spec fn plan_views(v: Seq<(Vec<usize>, u64, u64)>) -> Seq<PlanSpec> {
    v.map_values(|x: (Vec<usize>, u64, u64)| PlanSpec { shape: x.0@, n_elems: x.1, byte_len: x.2 })
}

proof fn lemma_plan_prefix(cfg: Qwen3Config, ts: Seq<TensorSpec>, region: int, k: int)
    requires
        0 <= k <= ts.len(),
        spec_plan(cfg, ts.take(k), region) is Err,
    ensures
        spec_plan(cfg, ts, region) == spec_plan(cfg, ts.take(k), region),
    decreases ts.len() - k,
{
    if k < ts.len() {
        assert(ts.take(k + 1).drop_last() =~= ts.take(k));
        lemma_plan_prefix(cfg, ts, region, k + 1);
    } else {
        assert(ts.take(k) =~= ts);
    }
}

/// The names of the expected set, as strings.
pub fn entry_name_list(expected: &Vec<(String, Vec<usize>)>) -> (r: Vec<String>)
    ensures
        views(r@) == entry_names(entry_views(expected@)),
{
    let mut r: Vec<String> = Vec::with_capacity(expected.len());
    let mut i: usize = 0;
    while i < expected.len()
        invariant
            i <= expected@.len(),
            views(r@) == entry_names(entry_views(expected@)).take(i as int),
        decreases expected.len() - i,
    {
        let ghost before = r@;
        r.push(expected[i].0.clone());
        proof {
            assert(views(r@) =~= views(before).push(expected@[i as int].0@));
            assert(entry_names(entry_views(expected@)).take(i + 1) =~= entry_names(
                entry_views(expected@),
            ).take(i as int).push(expected@[i as int].0@));
        }
        i = i + 1;
    }
    proof {
        assert(entry_names(entry_views(expected@)).take(expected@.len() as int) =~= entry_names(
            entry_views(expected@),
        ));
    }
    r
}

/// Every tensor against the contract, in file order.
pub fn plan_all(cfg: &Qwen3Config, c: &Container) -> (r: Result<Vec<(Vec<usize>, u64, u64)>, LoaderError>)
    requires
        crate::loader::container::container_wf(c@),
        spec_check_config(*cfg, cfg.head_dim),
    ensures
        match spec_plan(*cfg, c@.tensors, c@.file_len - c@.data_start) {
            Ok(ps) => r matches Ok(v) && plan_views(v@) == ps,
            Err(e) => r matches Err(x) && x@ == e,
        },
{
    let expected = expected_list(cfg);
    let names = entry_name_list(&expected);
    let index = VocabIndex::build(&names);
    let region = c.file_len - c.data_start;
    let ghost ts = c@.tensors;
    let mut out: Vec<(Vec<usize>, u64, u64)> = Vec::with_capacity(c.tensors.len());
    proof {
        assert(ts.take(0) =~= Seq::<TensorSpec>::empty());
        assert(plan_views(out@) =~= Seq::<PlanSpec>::empty());
    }
    let mut i: usize = 0;
    while i < c.tensors.len()
        invariant
            crate::loader::container::container_wf(c@),
            ts == c@.tensors,
            ts.len() == c.tensors@.len(),
            region == c@.file_len - c@.data_start,
            entry_views(expected@) == expected_entries(*cfg),
            views(names@) == entry_names(expected_entries(*cfg)),
            index.indexes(views(names@)),
            i <= ts.len(),
            spec_plan(*cfg, ts.take(i as int), region as int) == Ok::<Seq<PlanSpec>, ErrKind>(
                plan_views(out@),
            ),
        decreases c.tensors.len() - i,
    {
        let t = &c.tensors[i];
        proof {
            assert(ts[i as int] == t@);
            assert(ts.take(i + 1).drop_last() =~= ts.take(i as int));
            assert(ts.take(i + 1).last() == t@);
        }
        match plan_tensor(cfg, &expected, &names, &index, t, region) {
            Ok(p) => {
                let ghost before = out@;
                out.push(p);
                proof {
                    assert(plan_views(out@) =~= plan_views(before).push(
                        PlanSpec { shape: p.0@, n_elems: p.1, byte_len: p.2 },
                    ));
                }
            },
            Err(e) => {
                proof {
                    lemma_plan_prefix(*cfg, ts, region as int, i + 1);
                }
                return Err(e);
            },
        }
        i = i + 1;
    }
    proof {
        assert(ts.take(ts.len() as int) =~= ts);
    }
    Ok(out)
}

// ------------------------------------------------------------ layout

/// Byte `p` of the data region lies inside tensor `i`'s range.
pub open spec fn in_range(ts: Seq<TensorSpec>, ps: Seq<PlanSpec>, i: int, p: int) -> bool {
    ts[i].offset <= p < ts[i].offset + ps[i].byte_len
}

/// Byte `p` of the data region belongs to some tensor.
pub open spec fn covered(ts: Seq<TensorSpec>, ps: Seq<PlanSpec>, p: int) -> bool {
    exists|i: int| 0 <= i < ts.len() && #[trigger] in_range(ts, ps, i, p)
}

/// No two tensors share a byte.
pub open spec fn disjoint_ranges(ts: Seq<TensorSpec>, ps: Seq<PlanSpec>) -> bool {
    forall|i: int, j: int|
        0 <= i < ts.len() && 0 <= j < ts.len() && i != j ==> ts[i].offset + (#[trigger] ps[i]).byte_len
            <= ts[j].offset || ts[j].offset + (#[trigger] ps[j]).byte_len <= ts[i].offset
}

/// The spec's zero-padding rule: with tensors present, every byte of the
/// data region outside all tensors is zero (before the first, between
/// two, and after the last).
pub open spec fn padding_zero(ts: Seq<TensorSpec>, ps: Seq<PlanSpec>, region: Seq<u8>) -> bool {
    ts.len() == 0 || forall|p: int| 0 <= p < region.len() && !covered(ts, ps, p) ==> #[trigger] region[p] == 0
}

pub open spec fn zero_between(region: Seq<u8>, a: int, b: int) -> bool {
    forall|p: int| a <= p < b ==> #[trigger] region[p] == 0
}

/// Tensor `i` has a place in the sorted spans.
pub open spec fn placed(s: Seq<(u64, u64, usize)>, i: int) -> bool {
    exists|m: int| 0 <= m < s.len() && (#[trigger] s[m]).2 == i
}

/// `s` lists every tensor's byte range once, as (start, end, tensor),
/// ordered by start.
pub open spec fn spans_match(s: Seq<(u64, u64, usize)>, ts: Seq<TensorSpec>, ps: Seq<PlanSpec>) -> bool {
    &&& s.len() == ts.len()
    &&& ps.len() == ts.len()
    &&& forall|m: int|
        0 <= m < s.len() ==> (#[trigger] s[m]).2 < ts.len() && s[m].0 == ts[s[m].2 as int].offset
            && s[m].1 == ts[s[m].2 as int].offset + ps[s[m].2 as int].byte_len
    &&& forall|m1: int, m2: int|
        0 <= m1 < s.len() && 0 <= m2 < s.len() && m1 != m2 ==> (#[trigger] s[m1]).2 != (
        #[trigger] s[m2]).2
    &&& forall|i: int| 0 <= i < ts.len() ==> #[trigger] placed(s, i)
    &&& forall|m1: int, m2: int|
        0 <= m1 <= m2 < s.len() ==> (#[trigger] s[m1]).0 <= (#[trigger] s[m2]).0
}

/// What the scan over sorted spans checks: no span starts before the
/// previous ends, and the head, the gaps and the tail are zero.
pub open spec fn scan_ok(s: Seq<(u64, u64, usize)>, region: Seq<u8>) -> bool {
    s.len() == 0 || {
        &&& zero_between(region, 0, s[0].0 as int)
        &&& forall|m: int|
            0 <= m < s.len() - 1 ==> (#[trigger] s[m + 1]).0 >= s[m].1 && zero_between(
                region,
                s[m].1 as int,
                s[m + 1].0 as int,
            )
        &&& zero_between(region, s[s.len() - 1].1 as int, region.len() as int)
    }
}

proof fn lemma_chain(s: Seq<(u64, u64, usize)>, m1: int, m2: int)
    requires
        0 <= m1 < m2 < s.len(),
        forall|m: int| 0 <= m < s.len() ==> (#[trigger] s[m]).0 < s[m].1,
        forall|m: int| 0 <= m < s.len() - 1 ==> (#[trigger] s[m + 1]).0 >= s[m].1,
    ensures
        s[m1].1 <= s[m2].0,
    decreases m2 - m1,
{
    if m2 > m1 + 1 {
        lemma_chain(s, m1, m2 - 1);
        assert(s[m2 - 1].0 < s[m2 - 1].1);
        assert(s[(m2 - 1) + 1].0 >= s[m2 - 1].1);
    } else {
        assert(s[m1 + 1].0 >= s[m1].1);
    }
}

/// A byte at or after the first start and before the last end that no
/// span covers lies in a gap between two neighbours.
proof fn lemma_locate(s: Seq<(u64, u64, usize)>, p: int, m: int) -> (g: int)
    requires
        0 <= m < s.len(),
        s[m].0 <= p < s[s.len() - 1].1,
        forall|k: int| 0 <= k < s.len() ==> !((#[trigger] s[k]).0 <= p < s[k].1),
    ensures
        0 <= g < s.len() - 1,
        s[g].1 <= p < s[g + 1].0,
    decreases s.len() - m,
{
    assert(!(s[m].0 <= p < s[m].1));
    if m == s.len() - 1 {
        assert(false);
        0
    } else if s[m + 1].0 > p {
        m
    } else {
        lemma_locate(s, p, m + 1)
    }
}

/// Scanning the sorted spans decides both layout rules.
proof fn lemma_scan(s: Seq<(u64, u64, usize)>, ts: Seq<TensorSpec>, ps: Seq<PlanSpec>, region: Seq<u8>)
    requires
        spans_match(s, ts, ps),
        forall|i: int|
            0 <= i < ps.len() ==> (#[trigger] ps[i]).byte_len >= 1 && ts[i].offset + ps[i].byte_len
                <= region.len(),
    ensures
        scan_ok(s, region) <==> (disjoint_ranges(ts, ps) && padding_zero(ts, ps, region)),
{
    let n = s.len();
    assert forall|m: int| 0 <= m < n implies (#[trigger] s[m]).0 < s[m].1 && s[m].1 <= region.len() by {
        assert(ps[s[m].2 as int].byte_len >= 1);
    }
    if n == 0 {
        return;
    }
    if scan_ok(s, region) {
        assert forall|i: int, j: int|
            0 <= i < ts.len() && 0 <= j < ts.len() && i != j implies ts[i].offset + (
            #[trigger] ps[i]).byte_len <= ts[j].offset || ts[j].offset + (#[trigger] ps[j]).byte_len
            <= ts[i].offset by {
            assert(placed(s, i));
            assert(placed(s, j));
            let mi = choose|m: int| 0 <= m < s.len() && (#[trigger] s[m]).2 == i;
            let mj = choose|m: int| 0 <= m < s.len() && (#[trigger] s[m]).2 == j;
            if mi < mj {
                lemma_chain(s, mi, mj);
            } else {
                lemma_chain(s, mj, mi);
            }
        }
        assert forall|p: int| 0 <= p < region.len() && !covered(ts, ps, p) implies #[trigger] region[p]
            == 0 by {
            assert forall|k: int| 0 <= k < n implies !((#[trigger] s[k]).0 <= p < s[k].1) by {
                let i = s[k].2 as int;
                if s[k].0 <= p < s[k].1 {
                    assert(in_range(ts, ps, i, p));
                }
            }
            if p < s[0].0 {
            } else if p >= s[n - 1].1 {
            } else {
                let g = lemma_locate(s, p, 0);
                assert(zero_between(region, s[g].1 as int, s[g + 1].0 as int));
            }
        }
    }
    if disjoint_ranges(ts, ps) && padding_zero(ts, ps, region) {
        assert forall|m: int| 0 <= m < n - 1 implies (#[trigger] s[m + 1]).0 >= s[m].1 by {
            let i = s[m].2 as int;
            let j = s[m + 1].2 as int;
            assert(s[m].0 <= s[m + 1].0);
            assert(ps[i].byte_len >= 1 && ps[j].byte_len >= 1);
        }
        // every byte outside all spans is outside all tensors
        assert forall|p: int|
            0 <= p < region.len() && (forall|k: int| 0 <= k < n ==> !((#[trigger] s[k]).0 <= p < s[k].1))
                implies #[trigger] region[p] == 0 by {
            if covered(ts, ps, p) {
                let i = choose|i: int| 0 <= i < ts.len() && #[trigger] in_range(ts, ps, i, p);
                assert(placed(s, i));
                let k = choose|m: int| 0 <= m < s.len() && (#[trigger] s[m]).2 == i;
                assert(s[k].0 <= p < s[k].1);
            }
        }
        assert forall|p: int| 0 <= p < s[0].0 implies #[trigger] region[p] == 0 by {
            if p < region.len() {
                assert forall|k: int| 0 <= k < n implies !((#[trigger] s[k]).0 <= p < s[k].1) by {
                    assert(s[0].0 <= s[k].0);
                }
            }
        }
        assert forall|m: int| 0 <= m < n - 1 implies zero_between(
            region,
            (#[trigger] s[m]).1 as int,
            s[m + 1].0 as int,
        ) by {
            assert forall|p: int| s[m].1 <= p < s[m + 1].0 implies #[trigger] region[p] == 0 by {
                if p < region.len() {
                    assert forall|k: int| 0 <= k < n implies !((#[trigger] s[k]).0 <= p < s[k].1) by {
                        if k < m {
                            lemma_chain(s, k, m);
                        } else if k > m + 1 {
                            assert(s[m + 1].0 <= s[k].0);
                        }
                    }
                }
            }
        }
        assert forall|p: int| s[n - 1].1 <= p < region.len() implies #[trigger] region[p] == 0 by {
            assert forall|k: int| 0 <= k < n implies !((#[trigger] s[k]).0 <= p < s[k].1) by {
                if k < n - 1 {
                    lemma_chain(s, k, n - 1);
                }
            }
        }
        assert(scan_ok(s, region));
    }
}

/// The spans of the first `k` tensors, sorted by start.
pub open spec fn spans_prefix(
    s: Seq<(u64, u64, usize)>,
    ts: Seq<TensorSpec>,
    ps: Seq<PlanSpec>,
    k: int,
) -> bool {
    &&& s.len() == k
    &&& forall|m: int|
        0 <= m < s.len() ==> (#[trigger] s[m]).2 < k && s[m].0 == ts[s[m].2 as int].offset && s[m].1
            == ts[s[m].2 as int].offset + ps[s[m].2 as int].byte_len
    &&& forall|m1: int, m2: int|
        0 <= m1 < s.len() && 0 <= m2 < s.len() && m1 != m2 ==> (#[trigger] s[m1]).2 != (
        #[trigger] s[m2]).2
    &&& forall|i: int| 0 <= i < k ==> #[trigger] placed(s, i)
    &&& forall|m1: int, m2: int|
        0 <= m1 <= m2 < s.len() ==> (#[trigger] s[m1]).0 <= (#[trigger] s[m2]).0
}

/// Spans order as (start, end, tensor name), names by their bytes.
pub open spec fn span_lt(ts: Seq<TensorSpec>, x: (u64, u64, usize), y: (u64, u64, usize)) -> bool {
    ||| x.0 < y.0
    ||| x.0 == y.0 && x.1 < y.1
    ||| x.0 == y.0 && x.1 == y.1 && name_lt(ts[x.2 as int].name, ts[y.2 as int].name)
}

proof fn lemma_span_order(
    ts: Seq<TensorSpec>,
    x: (u64, u64, usize),
    y: (u64, u64, usize),
    z: (u64, u64, usize),
)
    ensures
        !span_lt(ts, x, x),
        span_lt(ts, x, y) && span_lt(ts, y, z) ==> span_lt(ts, x, z),
{
    let nx = encode_utf8(ts[x.2 as int].name);
    let ny = encode_utf8(ts[y.2 as int].name);
    let nz = encode_utf8(ts[z.2 as int].name);
    lemma_bytes_lt_order(nx, nx, nx);
    lemma_bytes_lt_order(nx, ny, nz);
}

/// How many leading spans do not sort after `x`.
pub open spec fn lead_le(s: Seq<(u64, u64, usize)>, ts: Seq<TensorSpec>, x: (u64, u64, usize)) -> int
    decreases s.len(),
{
    if s.len() == 0 || span_lt(ts, x, s[0]) {
        0
    } else {
        1 + lead_le(s.drop_first(), ts, x)
    }
}

/// Whether span `x` sorts before span `y`.
fn span_before(c: &Container, x: (u64, u64, usize), y: (u64, u64, usize)) -> (r: bool)
    requires
        x.2 < c.tensors@.len(),
        y.2 < c.tensors@.len(),
    ensures
        r == span_lt(c@.tensors, x, y),
{
    if x.0 != y.0 {
        return x.0 < y.0;
    }
    if x.1 != y.1 {
        return x.1 < y.1;
    }
    proof {
        assert(c@.tensors[x.2 as int].name == c.tensors@[x.2 as int].name@);
        assert(c@.tensors[y.2 as int].name == c.tensors@[y.2 as int].name@);
    }
    bytes_less(c.tensors[x.2].name.as_str().as_bytes(), c.tensors[y.2].name.as_str().as_bytes())
}

/// Tensor `k`'s byte range in the data region, and the tensor.
pub open spec fn span_of(ts: Seq<TensorSpec>, ps: Seq<PlanSpec>, k: int) -> (u64, u64, usize) {
    (ts[k].offset, (ts[k].offset + ps[k].byte_len) as u64, k as usize)
}

/// The spans of the first `k` tensors, each inserted after every span
/// that does not sort after it: sorted by (start, end, name).
pub open spec fn span_seq(ts: Seq<TensorSpec>, ps: Seq<PlanSpec>, k: int) -> Seq<(u64, u64, usize)>
    decreases k,
{
    if k <= 0 {
        Seq::empty()
    } else {
        let s = span_seq(ts, ps, k - 1);
        s.insert(lead_le(s, ts, span_of(ts, ps, k - 1)), span_of(ts, ps, k - 1))
    }
}

/// Every tensor's byte range (start, end, tensor), sorted by start.
#[verifier::rlimit(50)]
#[verifier::spinoff_prover]
fn sorted_spans(c: &Container, plans: &Vec<(Vec<usize>, u64, u64)>) -> (s: Vec<(u64, u64, usize)>)
    requires
        plans@.len() == c.tensors@.len(),
        forall|i: int|
            0 <= i < plans@.len() ==> c.tensors@[i].offset + (#[trigger] plans@[i]).2 <= u64::MAX,
    ensures
        spans_match(s@, c@.tensors, plan_views(plans@)),
        s@ == span_seq(c@.tensors, plan_views(plans@), c@.tensors.len() as int),
{
    let ghost ts = c@.tensors;
    let ghost ps = plan_views(plans@);
    let mut s: Vec<(u64, u64, usize)> = Vec::new();
    let mut k: usize = 0;
    while k < c.tensors.len()
        invariant
            ts == c@.tensors,
            ps == plan_views(plans@),
            plans@.len() == c.tensors@.len(),
            forall|i: int|
                0 <= i < plans@.len() ==> c.tensors@[i].offset + (#[trigger] plans@[i]).2 <= u64::MAX,
            k <= ts.len(),
            spans_prefix(s@, ts, ps, k as int),
            s@ == span_seq(ts, ps, k as int),
            forall|m1: int, m2: int|
                0 <= m1 < m2 < s@.len() ==> !span_lt(ts, #[trigger] s@[m2], #[trigger] s@[m1]),
        decreases c.tensors.len() - k,
    {
        let start = c.tensors[k].offset;
        let end = start + plans[k].2;
        let e = (start, end, k);
        let mut pos: usize = 0;
        proof {
            assert(s@.skip(0) =~= s@);
        }
        while pos < s.len() && !span_before(c, e, s[pos])
            invariant
                ts == c@.tensors,
                k < ts.len(),
                e.2 == k,
                pos <= s@.len(),
                forall|m: int| 0 <= m < s@.len() ==> (#[trigger] s@[m]).2 < k,
                forall|m: int| 0 <= m < pos ==> !span_lt(ts, e, #[trigger] s@[m]),
                lead_le(s@, ts, e) == pos + lead_le(s@.skip(pos as int), ts, e),
            decreases s.len() - pos,
        {
            proof {
                assert(s@.skip(pos as int).drop_first() =~= s@.skip(pos + 1));
            }
            pos = pos + 1;
        }
        proof {
            assert(ts[k as int] == c.tensors@[k as int]@);
            assert(lead_le(s@, ts, e) == pos);
            assert(span_of(ts, ps, k as int) == e);
            assert forall|m: int| 0 <= m < pos implies (#[trigger] s@[m]).0 <= start by {
                assert(!span_lt(ts, e, s@[m]));
            }
        }
        let ghost old_s = s@;
        let e = (start, end, k);
        s.insert(pos, e);
        proof {
            old_s.insert_ensures(pos as int, e);
            assert(s@ == old_s.insert(pos as int, e));
            assert(ts[k as int] == c.tensors@[k as int]@);
            assert forall|m: int|
                0 <= m < s@.len() implies (#[trigger] s@[m]).2 < k + 1 && s@[m].0 == ts[s@[m].2 as int].offset
                && s@[m].1 == ts[s@[m].2 as int].offset + ps[s@[m].2 as int].byte_len by {
                if m < pos {
                    assert(s@[m] == old_s[m]);
                } else if m > pos {
                    assert(s@[m] == old_s[m - 1]);
                }
            }
            assert forall|m1: int, m2: int|
                0 <= m1 < s@.len() && 0 <= m2 < s@.len() && m1 != m2 implies (#[trigger] s@[m1]).2
                != (#[trigger] s@[m2]).2 by {
                let a = if m1 < pos {
                    m1
                } else {
                    m1 - 1
                };
                let b = if m2 < pos {
                    m2
                } else {
                    m2 - 1
                };
                if m1 != pos && m2 != pos {
                    assert(s@[m1] == old_s[a]);
                    assert(s@[m2] == old_s[b]);
                } else if m1 == pos {
                    assert(s@[m2] == old_s[b]);
                } else {
                    assert(s@[m1] == old_s[a]);
                }
            }
            assert forall|i: int| 0 <= i < k + 1 implies #[trigger] placed(s@, i) by {
                if i == k {
                    assert(s@[pos as int].2 == i);
                } else {
                    assert(placed(old_s, i));
                    let m = choose|m: int| 0 <= m < old_s.len() && (#[trigger] old_s[m]).2 == i;
                    if m < pos {
                        assert(s@[m] == old_s[m]);
                    } else {
                        assert(s@[m + 1] == old_s[m]);
                    }
                }
            }
            assert forall|m1: int, m2: int|
                0 <= m1 < m2 < s@.len() implies !span_lt(ts, #[trigger] s@[m2], #[trigger] s@[m1]) by {
                if m1 < pos {
                    assert(s@[m1] == old_s[m1]);
                    if m2 < pos {
                        assert(s@[m2] == old_s[m2]);
                    } else if m2 > pos {
                        assert(s@[m2] == old_s[m2 - 1]);
                    }
                } else if m1 == pos {
                    let y = old_s[m2 - 1];
                    assert(s@[m2] == y);
                    assert(span_lt(ts, e, old_s[pos as int]));
                    lemma_span_order(ts, y, e, old_s[pos as int]);
                    lemma_span_order(ts, y, y, y);
                } else {
                    assert(s@[m1] == old_s[m1 - 1]);
                    assert(s@[m2] == old_s[m2 - 1]);
                }
            }
            assert forall|m1: int, m2: int|
                0 <= m1 <= m2 < s@.len() implies (#[trigger] s@[m1]).0 <= (#[trigger] s@[m2]).0 by {
                if m1 < m2 {
                    assert(!span_lt(ts, s@[m2], s@[m1]));
                }
            }
        }
        k = k + 1;
    }
    s
}

/// The first neighbour pair, from the `m`th span on, that overlaps or
/// has unzeroed padding between: its refusal.
pub open spec fn gap_refusal(
    s: Seq<(u64, u64, usize)>,
    ts: Seq<TensorSpec>,
    region: Seq<u8>,
    m: int,
) -> Option<Seq<char>>
    decreases s.len() - m,
{
    if m < 0 || m + 1 >= s.len() {
        None
    } else if s[m + 1].0 < s[m].1 {
        Some(
            "tensors \""@ + ts[s[m].2 as int].name + "\" and \""@ + ts[s[m + 1].2 as int].name
                + "\" overlap in the data region"@,
        )
    } else if !zero_between(region, s[m].1 as int, s[m + 1].0 as int) {
        Some(
            "padding between tensors \""@ + ts[s[m].2 as int].name + "\" and \""@ + ts[s[m
                + 1].2 as int].name + "\" is not zeroed"@,
        )
    } else {
        gap_refusal(s, ts, region, m + 1)
    }
}

/// What the scan over sorted spans refuses first: unzeroed bytes before
/// the first tensor, a bad neighbour pair, or unzeroed bytes after the
/// last.
pub open spec fn scan_refusal(s: Seq<(u64, u64, usize)>, ts: Seq<TensorSpec>, region: Seq<u8>) -> Seq<
    char,
> {
    if !zero_between(region, 0, s[0].0 as int) {
        "padding before tensor \""@ + ts[s[0].2 as int].name + ""@ + ""@ + "\" is not zeroed"@
    } else {
        match gap_refusal(s, ts, region, 0) {
            Some(m) => m,
            None => "trailing bytes after tensor \""@ + ts[s[s.len() - 1].2 as int].name + ""@ + ""@
                + "\" are not zeroed"@,
        }
    }
}

/// Whether bytes `a..b` of the data region starting at `ds` are zero.
fn zero_span(bytes: &[u8], ds: usize, a: u64, b: u64) -> (r: bool)
    requires
        ds <= bytes@.len(),
        a <= b,
        ds + b <= bytes@.len(),
    ensures
        r == zero_between(bytes@.subrange(ds as int, bytes@.len() as int), a as int, b as int),
{
    let ghost region = bytes@.subrange(ds as int, bytes@.len() as int);
    let total = bytes.len();
    proof {
        assert(total == bytes@.len());
        assert(b <= total);
    }
    let mut p = ds + a as usize;
    let stop = ds + b as usize;
    while p < stop
        invariant
            region == bytes@.subrange(ds as int, bytes@.len() as int),
            ds + a <= p <= stop,
            stop == ds + b,
            stop <= bytes@.len(),
            forall|q: int| a <= q < p - ds ==> #[trigger] region[q] == 0,
        decreases stop - p,
    {
        if bytes[p] != 0 {
            proof {
                assert(region[p - ds] == bytes@[p as int]);
            }
            return false;
        }
        proof {
            assert(region[p - ds] == bytes@[p as int]);
        }
        p = p + 1;
    }
    true
}

fn padding_message(prefix: &str, first: &str, middle: &str, second: &str, suffix: &str) -> (e: LoaderError)
    ensures
        e@ == (ErrKind::Structure { reason: prefix@ + first@ + middle@ + second@ + suffix@ }),
{
    let mut reason = text(prefix);
    push_str(&mut reason, first);
    push_str(&mut reason, middle);
    push_str(&mut reason, second);
    push_str(&mut reason, suffix);
    LoaderError::Structure { reason }
}

/// The scan over sorted spans: head, neighbours, tail.
fn check_spans(c: &Container, s: &Vec<(u64, u64, usize)>, bytes: &[u8]) -> (r: Result<(), LoaderError>)
    requires
        c.data_start <= bytes@.len(),
        s@.len() == c.tensors@.len(),
        forall|m: int|
            0 <= m < s@.len() ==> (#[trigger] s@[m]).2 < c.tensors@.len() && s@[m].0 < s@[m].1 && c.data_start
                + s@[m].1 <= bytes@.len(),
    ensures
        r is Ok <==> scan_ok(s@, bytes@.subrange(c.data_start as int, bytes@.len() as int)),
        r matches Err(e) ==> e@ == (ErrKind::Structure {
            reason: scan_refusal(
                s@,
                c@.tensors,
                bytes@.subrange(c.data_start as int, bytes@.len() as int),
            ),
        }),
{
    let ghost region = bytes@.subrange(c.data_start as int, bytes@.len() as int);
    let ds = c.data_start;
    let n = s.len();
    if n == 0 {
        return Ok(());
    }
    let first = s[0];
    proof {
        assert(c@.tensors[first.2 as int].name == c.tensors@[first.2 as int].name@);
    }
    if !zero_span(bytes, ds, 0, first.0) {
        return Err(
            padding_message("padding before tensor \"", c.tensors[first.2].name.as_str(), "", "", "\" is not zeroed"),
        );
    }
    let mut m: usize = 0;
    while m + 1 < n
        invariant
            n == s@.len(),
            n >= 1,
            ds == c.data_start,
            region == bytes@.subrange(ds as int, bytes@.len() as int),
            s@.len() == c.tensors@.len(),
            forall|k: int|
                0 <= k < s@.len() ==> (#[trigger] s@[k]).2 < c.tensors@.len() && s@[k].0 < s@[k].1
                    && ds + s@[k].1 <= bytes@.len(),
            m + 1 <= n,
            forall|k: int|
                0 <= k < m ==> (#[trigger] s@[k + 1]).0 >= s@[k].1 && zero_between(
                    region,
                    s@[k].1 as int,
                    s@[k + 1].0 as int,
                ),
            zero_between(region, 0, s@[0].0 as int),
            gap_refusal(s@, c@.tensors, region, 0) == gap_refusal(s@, c@.tensors, region, m as int),
        decreases n - m,
    {
        let a = s[m];
        let b = s[m + 1];
        proof {
            assert(c@.tensors[a.2 as int].name == c.tensors@[a.2 as int].name@);
            assert(c@.tensors[b.2 as int].name == c.tensors@[b.2 as int].name@);
        }
        if b.0 < a.1 {
            return Err(
                padding_message(
                    "tensors \"",
                    c.tensors[a.2].name.as_str(),
                    "\" and \"",
                    c.tensors[b.2].name.as_str(),
                    "\" overlap in the data region",
                ),
            );
        }
        if !zero_span(bytes, ds, a.1, b.0) {
            return Err(
                padding_message(
                    "padding between tensors \"",
                    c.tensors[a.2].name.as_str(),
                    "\" and \"",
                    c.tensors[b.2].name.as_str(),
                    "\" is not zeroed",
                ),
            );
        }
        m = m + 1;
    }
    // trailing bytes after the last tensor must also be zero
    let last = s[n - 1];
    proof {
        assert(c@.tensors[last.2 as int].name == c.tensors@[last.2 as int].name@);
        assert(gap_refusal(s@, c@.tensors, region, m as int) is None);
    }
    if !zero_span(bytes, ds, last.1, (bytes.len() - ds) as u64) {
        return Err(
            padding_message("trailing bytes after tensor \"", c.tensors[last.2].name.as_str(), "", "", "\" are not zeroed"),
        );
    }
    Ok(())
}

proof fn lemma_plan_items(cfg: Qwen3Config, ts: Seq<TensorSpec>, region: int)
    requires
        spec_plan(cfg, ts, region) is Ok,
    ensures
        spec_plan(cfg, ts, region)->Ok_0.len() == ts.len(),
        forall|i: int|
            0 <= i < ts.len() ==> spec_plan_one(cfg, #[trigger] ts[i], region) == Ok::<PlanSpec, ErrKind>(
                spec_plan(cfg, ts, region)->Ok_0[i],
            ),
    decreases ts.len(),
{
    if ts.len() > 0 {
        lemma_plan_items(cfg, ts.drop_last(), region);
        assert forall|i: int| 0 <= i < ts.len() implies spec_plan_one(cfg, #[trigger] ts[i], region)
            == Ok::<PlanSpec, ErrKind>(spec_plan(cfg, ts, region)->Ok_0[i]) by {
            if i < ts.len() - 1 {
                assert(ts.drop_last()[i] == ts[i]);
            }
        }
    }
}

proof fn lemma_byte_len_positive(type_id: u32, n: u64, row: u64, name: Seq<char>)
    requires
        n >= 1,
        spec_tensor_byte_len(type_id, n, row, name) is Ok,
    ensures
        spec_tensor_byte_len(type_id, n, row, name)->Ok_0 >= 1,
        spec_tensor_byte_len(type_id, n, row, name)->Ok_0 >= n,
{
    if type_id != crate::loader::dequant::GGML_F32 {
        assert(n / 32 >= 1 && n <= (n / 32) * 34) by (nonlinear_arith)
            requires
                n >= 1,
                row != 0,
                n % row == 0,
                row % 32 == 0,
        {
            vstd::arithmetic::div_mod::lemma_fundamental_div_mod(n as int, row as int);
            vstd::arithmetic::div_mod::lemma_fundamental_div_mod(row as int, 32);
            vstd::arithmetic::div_mod::lemma_fundamental_div_mod(n as int, 32);
            assert(n == row * (n / row));
            assert(row == 32 * (row / 32));
            assert(n == 32 * ((row / 32) * (n / row)));
            vstd::arithmetic::div_mod::lemma_mod_multiples_basic((row / 32) * (n / row), 32);
        }
    }
}

/// What every accepted contract records of each tensor: a range inside
/// the data region, at least one byte, and no more values than bytes.
pub proof fn lemma_contract_facts(cfg: Qwen3Config, c: ContainerSpec, b: Seq<u8>)
    requires
        crate::loader::container::container_wf(c),
        spec_contract(cfg, c, b) is Ok,
    ensures
        spec_contract(cfg, c, b)->Ok_0.len() == c.tensors.len(),
        forall|i: int|
            0 <= i < c.tensors.len() ==> {
                let p = #[trigger] spec_contract(cfg, c, b)->Ok_0[i];
                &&& c.tensors[i].offset + p.byte_len <= c.file_len - c.data_start
                &&& p.n_elems <= p.byte_len
                &&& 1 <= p.byte_len
                &&& p.shape == shape_of(c.tensors[i].dims)
                &&& p.n_elems == dims_product(c.tensors[i].dims)
                &&& dims_fit(c.tensors[i].dims)
                &&& expected_shape(cfg, c.tensors[i].name) == Some(p.shape)
                &&& spec_tensor_byte_len(
                    c.tensors[i].type_id,
                    p.n_elems,
                    c.tensors[i].dims[0],
                    c.tensors[i].name,
                ) == Ok::<u64, ErrKind>(p.byte_len)
            },
        forall|m: Seq<char>| !is_missing(cfg, c.tensors, m),
{
    let ts = c.tensors;
    let region = c.file_len - c.data_start;
    lemma_plan_items(cfg, ts, region);
    let ps = spec_plan(cfg, ts, region)->Ok_0;
    assert forall|i: int| 0 <= i < ts.len() implies {
        let p = #[trigger] spec_contract(cfg, c, b)->Ok_0[i];
        &&& ts[i].offset + p.byte_len <= region
        &&& p.n_elems <= p.byte_len
        &&& 1 <= p.byte_len
        &&& p.shape == shape_of(ts[i].dims)
        &&& p.n_elems == dims_product(ts[i].dims)
        &&& dims_fit(ts[i].dims)
        &&& expected_shape(cfg, ts[i].name) == Some(p.shape)
        &&& spec_tensor_byte_len(ts[i].type_id, p.n_elems, ts[i].dims[0], ts[i].name) == Ok::<
            u64,
            ErrKind,
        >(p.byte_len)
    } by {
        let t = ts[i];
        assert(spec_plan_one(cfg, t, region) == Ok::<PlanSpec, ErrKind>(ps[i]));
        lemma_product_pos(t.dims, t.dims.len() as int);
        assert(t.dims.take(t.dims.len() as int) =~= t.dims);
        lemma_byte_len_positive(t.type_id, dims_product(t.dims) as u64, t.dims[0], t.name);
    }
}

// ----------------------------------------------------- missing names

/// Byte-wise lexicographic order, the order of `str`'s comparison.
pub open spec fn bytes_lt(a: Seq<u8>, b: Seq<u8>) -> bool
    decreases a.len(),
{
    if a.len() == 0 {
        b.len() > 0
    } else if b.len() == 0 {
        false
    } else if a[0] < b[0] {
        true
    } else if a[0] > b[0] {
        false
    } else {
        bytes_lt(a.drop_first(), b.drop_first())
    }
}

/// Names ordered by their UTF-8 bytes.
pub open spec fn name_lt(a: Seq<char>, b: Seq<char>) -> bool {
    bytes_lt(encode_utf8(a), encode_utf8(b))
}

pub(crate) proof fn lemma_bytes_lt_order(a: Seq<u8>, b: Seq<u8>, c: Seq<u8>)
    ensures
        bytes_lt(a, b) ==> !bytes_lt(b, a),
        bytes_lt(a, b) && bytes_lt(b, c) ==> bytes_lt(a, c),
        a != b ==> bytes_lt(a, b) || bytes_lt(b, a),
    decreases a.len(),
{
    if a.len() > 0 && b.len() > 0 {
        lemma_bytes_lt_order(a.drop_first(), b.drop_first(), c.drop_first());
        if a != b && a[0] == b[0] {
            assert(a.drop_first() != b.drop_first()) by {
                if a.drop_first() == b.drop_first() {
                    assert(a =~= seq![a[0]] + a.drop_first());
                    assert(b =~= seq![b[0]] + b.drop_first());
                }
            }
        }
    } else if a.len() == 0 && b.len() == 0 {
        assert(a =~= b);
    }
}

/// An expected name that no tensor carries.
pub open spec fn is_missing(cfg: Qwen3Config, ts: Seq<TensorSpec>, name: Seq<char>) -> bool {
    entry_names(expected_entries(cfg)).contains(name) && !tensor_names(ts).contains(name)
}

/// The least missing name in byte order.
pub open spec fn least_missing(cfg: Qwen3Config, ts: Seq<TensorSpec>, m: Seq<char>) -> bool {
    is_missing(cfg, ts, m) && forall|e: Seq<char>| is_missing(cfg, ts, e) ==> !name_lt(e, m)
}

/// The missing name a refusal reports: deterministic diagnostics name
/// the alphabetically first.
pub open spec fn first_missing(cfg: Qwen3Config, ts: Seq<TensorSpec>) -> Seq<char> {
    choose|m: Seq<char>| least_missing(cfg, ts, m)
}

proof fn lemma_least_unique(cfg: Qwen3Config, ts: Seq<TensorSpec>, m: Seq<char>)
    requires
        least_missing(cfg, ts, m),
    ensures
        first_missing(cfg, ts) == m,
{
    let f = first_missing(cfg, ts);
    assert(least_missing(cfg, ts, f));
    if f != m {
        encode_utf8_decode_utf8(f);
        encode_utf8_decode_utf8(m);
        assert(!name_lt(m, f));
        assert(!name_lt(f, m));
        assert(encode_utf8(f) != encode_utf8(m));
        lemma_bytes_lt_order(encode_utf8(f), encode_utf8(m), encode_utf8(m));
    }
}

/// Whether `a` sorts before `b`, byte by byte.
pub(crate) fn bytes_less(a: &[u8], b: &[u8]) -> (r: bool)
    ensures
        r == bytes_lt(a@, b@),
{
    let mut i: usize = 0;
    proof {
        assert(a@.skip(0) =~= a@);
        assert(b@.skip(0) =~= b@);
    }
    while i < a.len() && i < b.len()
        invariant
            i <= a@.len(),
            i <= b@.len(),
            bytes_lt(a@, b@) == bytes_lt(a@.skip(i as int), b@.skip(i as int)),
        decreases a.len() - i,
    {
        proof {
            assert(a@.skip(i as int).drop_first() =~= a@.skip(i + 1));
            assert(b@.skip(i as int).drop_first() =~= b@.skip(i + 1));
        }
        if a[i] < b[i] {
            return true;
        }
        if a[i] > b[i] {
            return false;
        }
        i = i + 1;
    }
    a.len() < b.len()
}

/// The position in the expected list of the least missing name.
fn least_missing_entry(c: &Container, cfg: &Qwen3Config, names: &Vec<String>) -> (r: Option<usize>)
    requires
        views(names@) == entry_names(expected_entries(*cfg)),
    ensures
        r is None ==> forall|m: Seq<char>| !is_missing(*cfg, c@.tensors, m),
        r matches Some(k) ==> k < names@.len() && least_missing(*cfg, c@.tensors, names@[k as int]@),
{
    let ghost ts = c@.tensors;
    let ghost wn = views(names@);
    let mut tnames: Vec<String> = Vec::with_capacity(c.tensors.len());
    let mut i: usize = 0;
    while i < c.tensors.len()
        invariant
            ts == c@.tensors,
            i <= c.tensors@.len(),
            views(tnames@) == tensor_names(ts).take(i as int),
        decreases c.tensors.len() - i,
    {
        let ghost before = tnames@;
        tnames.push(c.tensors[i].name.clone());
        proof {
            assert(views(tnames@) =~= views(before).push(c.tensors@[i as int].name@));
            assert(tensor_names(ts).take(i + 1) =~= tensor_names(ts).take(i as int).push(
                ts[i as int].name,
            ));
        }
        i = i + 1;
    }
    proof {
        assert(tensor_names(ts).take(ts.len() as int) =~= tensor_names(ts));
    }
    let index = VocabIndex::build(&tnames);
    let mut best: Option<usize> = None;
    let mut k: usize = 0;
    while k < names.len()
        invariant
            ts == c@.tensors,
            wn == views(names@),
            wn == entry_names(expected_entries(*cfg)),
            views(tnames@) == tensor_names(ts),
            index.indexes(views(tnames@)),
            k <= names@.len(),
            best is None ==> forall|j: int| 0 <= j < k ==> !is_missing(*cfg, ts, #[trigger] wn[j]),
            best matches Some(b) ==> b < k && is_missing(*cfg, ts, wn[b as int]) && forall|j: int|
                0 <= j < k && is_missing(*cfg, ts, #[trigger] wn[j]) ==> !name_lt(wn[j], wn[b as int]),
        decreases names.len() - k,
    {
        let name = names[k].as_str();
        proof {
            assert(wn[k as int] == name@);
            assert(wn.contains(name@));
            lemma_index_of(tensor_names(ts), name@);
        }
        if index.find(&tnames, name).is_none() {
            let better = match best {
                None => true,
                Some(b) => bytes_less(name.as_bytes(), names[b].as_str().as_bytes()),
            };
            if better {
                proof {
                    lemma_bytes_lt_order(encode_utf8(wn[k as int]), encode_utf8(wn[k as int]), encode_utf8(wn[k as int]));
                    if let Some(b) = best {
                        assert forall|j: int|
                            0 <= j < k + 1 && is_missing(*cfg, ts, #[trigger] wn[j]) implies !name_lt(
                            wn[j],
                            wn[k as int],
                        ) by {
                            lemma_bytes_lt_order(encode_utf8(wn[j]), encode_utf8(wn[k as int]), encode_utf8(wn[b as int]));
                            lemma_bytes_lt_order(encode_utf8(wn[k as int]), encode_utf8(wn[b as int]), encode_utf8(wn[j]));
                        }
                    }
                }
                best = Some(k);
            }
        }
        k = k + 1;
    }
    proof {
        if let Some(b) = best {
            assert forall|e: Seq<char>| is_missing(*cfg, ts, e) implies !name_lt(e, wn[b as int]) by {
                let j = choose|j: int| 0 <= j < wn.len() && wn[j] == e;
                assert(is_missing(*cfg, ts, wn[j]));
            }
        } else {
            assert forall|e: Seq<char>| !is_missing(*cfg, ts, e) by {
                if is_missing(*cfg, ts, e) {
                    let j = choose|j: int| 0 <= j < wn.len() && wn[j] == e;
                    assert(!is_missing(*cfg, ts, wn[j]));
                }
            }
        }
    }
    best
}

// ------------------------------------------------------------ budget

/// The element count of all tensors together.
pub open spec fn total_elems(ps: Seq<PlanSpec>) -> int
    decreases ps.len(),
{
    if ps.len() == 0 {
        0
    } else {
        total_elems(ps.drop_last()) + ps.last().n_elems
    }
}

proof fn lemma_total_mono(ps: Seq<PlanSpec>, i: int, j: int)
    requires
        0 <= i <= j <= ps.len(),
    ensures
        0 <= total_elems(ps.take(i)) <= total_elems(ps.take(j)),
    decreases j,
{
    if j > 0 {
        let k = if i < j {
            i
        } else {
            j - 1
        };
        lemma_total_mono(ps, k, j - 1);
        assert(ps.take(j).drop_last() =~= ps.take(j - 1));
    } else {
        assert(ps.take(0) =~= Seq::<PlanSpec>::empty());
    }
}

/// The first overflow the running budget sum meets among the first `i`
/// tensors: one tensor's four bytes per value, or the running total.
pub open spec fn budget_overflow(ts: Seq<TensorSpec>, ps: Seq<PlanSpec>, i: int) -> Option<Seq<char>>
    decreases i,
{
    if i <= 0 {
        None
    } else {
        match budget_overflow(ts, ps, i - 1) {
            Some(m) => Some(m),
            None => if ps[i - 1].n_elems * 4 > u64::MAX {
                Some("tensor \""@ + ts[i - 1].name + "\" decoded size overflows"@)
            } else if total_elems(ps.take(i)) * 4 > u64::MAX {
                Some("total decoded size overflows"@)
            } else {
                None
            },
        }
    }
}

proof fn lemma_budget_overflow_stays(ts: Seq<TensorSpec>, ps: Seq<PlanSpec>, m: int, n: int)
    requires
        0 <= m <= n,
        budget_overflow(ts, ps, m) is Some,
    ensures
        budget_overflow(ts, ps, n) == budget_overflow(ts, ps, m),
    decreases n - m,
{
    if n > m {
        lemma_budget_overflow_stays(ts, ps, m, n - 1);
    }
}

/// Why the decoded weights break the budget: an overflow of the sum, or
/// the total past the cap.
pub open spec fn budget_refusal(ts: Seq<TensorSpec>, ps: Seq<PlanSpec>) -> Seq<char> {
    match budget_overflow(ts, ps, ps.len() as int) {
        Some(m) => m,
        None => "dequantized weights would be "@ + dec((total_elems(ps) * 4) as nat)
            + " bytes; nucleon caps at 128849018880"@,
    }
}

/// Whether the decoded weights fit the budget: four bytes per value.
fn within_budget(c: &Container, plans: &Vec<(Vec<usize>, u64, u64)>) -> (r: Result<(), LoaderError>)
    requires
        plans@.len() == c.tensors@.len(),
    ensures
        r is Ok <==> total_elems(plan_views(plans@)) * 4 <= MAX_DECODED_BYTES,
        r matches Err(e) ==> e@ == (ErrKind::Structure {
            reason: budget_refusal(c@.tensors, plan_views(plans@)),
        }),
{
    let ghost ps = plan_views(plans@);
    let mut decoded: u64 = 0;
    let mut i: usize = 0;
    proof {
        assert(ps.take(0) =~= Seq::<PlanSpec>::empty());
    }
    while i < plans.len()
        invariant
            ps == plan_views(plans@),
            plans@.len() == c.tensors@.len(),
            i <= plans@.len(),
            decoded == total_elems(ps.take(i as int)) * 4,
            budget_overflow(c@.tensors, ps, i as int) is None,
        decreases plans.len() - i,
    {
        proof {
            assert(ps.take(i + 1).drop_last() =~= ps.take(i as int));
            lemma_total_mono(ps, i + 1, ps.len() as int);
            assert(ps.take(ps.len() as int) =~= ps);
        }
        let n = plans[i].1;
        let elem_total = match n.checked_mul(4) {
            Some(t) => t,
            None => {
                proof {
                    assert(c@.tensors[i as int].name == c.tensors@[i as int].name@);
                    assert(budget_overflow(c@.tensors, ps, i + 1) is Some);
                    lemma_budget_overflow_stays(c@.tensors, ps, i + 1, ps.len() as int);
                }
                return Err(tensor_message(c.tensors[i].name.as_str(), "\" decoded size overflows"));
            },
        };
        decoded = match decoded.checked_add(elem_total) {
            Some(d) => d,
            None => {
                proof {
                    assert(budget_overflow(c@.tensors, ps, i + 1) is Some);
                    lemma_budget_overflow_stays(c@.tensors, ps, i + 1, ps.len() as int);
                }
                return Err(LoaderError::Structure { reason: text("total decoded size overflows") });
            },
        };
        i = i + 1;
    }
    proof {
        assert(ps.take(ps.len() as int) =~= ps);
    }
    if decoded > MAX_DECODED_BYTES {
        let mut reason = text("dequantized weights would be ");
        push_dec(&mut reason, decoded);
        push_str(&mut reason, " bytes; nucleon caps at 128849018880");
        return Err(LoaderError::Structure { reason });
    }
    Ok(())
}

// ---------------------------------------------------------- contract

/// The whole second pass: every tensor planned in file order; then the
/// layout (structural lies refuse before completeness does), the
/// completeness of the set, and the memory budget.
pub open spec fn spec_contract(cfg: Qwen3Config, c: ContainerSpec, b: Seq<u8>) -> Result<
    Seq<PlanSpec>,
    ErrKind,
> {
    match spec_plan(cfg, c.tensors, c.file_len - c.data_start) {
        Err(e) => Err(e),
        Ok(ps) => if !disjoint_ranges(c.tensors, ps) || !padding_zero(
            c.tensors,
            ps,
            b.subrange(c.data_start, c.file_len),
        ) {
            Err(
                ErrKind::Structure {
                    reason: scan_refusal(
                        span_seq(c.tensors, ps, c.tensors.len() as int),
                        c.tensors,
                        b.subrange(c.data_start, c.file_len),
                    ),
                },
            )
        } else if exists|m: Seq<char>| is_missing(cfg, c.tensors, m) {
            Err(ErrKind::MissingTensor { name: first_missing(cfg, c.tensors) })
        } else if total_elems(ps) * 4 > MAX_DECODED_BYTES {
            Err(ErrKind::Structure { reason: budget_refusal(c.tensors, ps) })
        } else {
            Ok(ps)
        },
    }
}

/// The tensor contract over a parsed container and its file bytes: each
/// tensor's row-major shape, element count and byte length, in file
/// order.
pub fn tensor_contract(cfg: &Qwen3Config, c: &Container, bytes: &[u8]) -> (r: Result<
    Vec<(Vec<usize>, u64, u64)>,
    LoaderError,
>)
    requires
        crate::loader::container::container_wf(c@),
        spec_check_config(*cfg, cfg.head_dim),
        c.file_len == bytes@.len(),
    ensures
        match spec_contract(*cfg, c@, bytes@) {
            Ok(ps) => r matches Ok(v) && plan_views(v@) == ps,
            Err(e) => r matches Err(x) && x@ == e,
        },
{
    let plans = plan_all(cfg, c)?;
    let ghost ts = c@.tensors;
    let ghost ps = plan_views(plans@);
    let ghost region = bytes@.subrange(c.data_start as int, bytes@.len() as int);
    proof {
        lemma_plan_items(*cfg, ts, c@.file_len - c@.data_start);
        assert forall|i: int| 0 <= i < ps.len() implies (#[trigger] ps[i]).byte_len >= 1
            && ts[i].offset + ps[i].byte_len <= region.len() by {
            let t = ts[i];
            assert(spec_plan_one(*cfg, t, c@.file_len - c@.data_start) == Ok::<PlanSpec, ErrKind>(ps[i]));
            assert(t == c.tensors@[i]@);
            lemma_product_pos(t.dims, t.dims.len() as int);
            assert(t.dims.take(t.dims.len() as int) =~= t.dims);
            lemma_byte_len_positive(
                t.type_id,
                dims_product(t.dims) as u64,
                t.dims[0],
                t.name,
            );
        }
        assert forall|i: int|
            0 <= i < plans@.len() implies c.tensors@[i].offset + (#[trigger] plans@[i]).2 <= u64::MAX by {
            assert(ps[i].byte_len == plans@[i].2);
            assert(ts[i] == c.tensors@[i]@);
        }
    }
    let spans = sorted_spans(c, &plans);
    proof {
        lemma_scan(spans@, ts, ps, region);
        assert forall|m: int|
            0 <= m < spans@.len() implies (#[trigger] spans@[m]).2 < c.tensors@.len() && spans@[m].0
                < spans@[m].1 && c.data_start + spans@[m].1 <= bytes@.len() by {
            let i = spans@[m].2 as int;
            assert(ps[i].byte_len >= 1);
        }
    }
    check_spans(c, &spans, bytes)?;
    let expected = expected_list(cfg);
    let names = entry_name_list(&expected);
    match least_missing_entry(c, cfg, &names) {
        Some(k) => {
            proof {
                lemma_least_unique(*cfg, ts, names@[k as int]@);
            }
            return Err(LoaderError::MissingTensor { name: names[k].clone() });
        },
        None => {},
    }
    within_budget(c, &plans)?;
    Ok(plans)
}

proof fn lemma_product_front(s: Seq<usize>)
    requires
        s.len() > 0,
    ensures
        crate::tensor::shape_product(s) == s[0] * crate::tensor::shape_product(s.drop_first()),
    decreases s.len(),
{
    let t = s.drop_last();
    if t.len() == 0 {
        assert(s.drop_first() =~= Seq::<usize>::empty());
        assert(t =~= Seq::<usize>::empty());
        assert(crate::tensor::shape_product(t) == 1);
        assert(crate::tensor::shape_product(s.drop_first()) == 1);
        assert(s.last() == s[0]);
        assert(crate::tensor::shape_product(s) == 1 * s.last());
    } else {
        lemma_product_front(t);
        assert(s.drop_first().drop_last() =~= t.drop_first());
        assert(s.drop_first().last() == s.last());
        assert(t[0] == s[0]);
        let a = s[0] as int;
        let b = crate::tensor::shape_product(t.drop_first());
        let c = s.last() as int;
        assert(crate::tensor::shape_product(s) == crate::tensor::shape_product(t) * c);
        assert(crate::tensor::shape_product(t) == a * b);
        assert(crate::tensor::shape_product(s.drop_first()) == b * c);
        assert((a * b) * c == a * (b * c)) by (nonlinear_arith);
    }
}

/// Reversing the dims into a row-major shape keeps the element count.
pub proof fn lemma_product_reversed(d: Seq<u64>)
    requires
        dims_fit(d),
    ensures
        crate::tensor::shape_product(shape_of(d)) == dims_product(d),
    decreases d.len(),
{
    if d.len() == 0 {
        assert(shape_of(d) =~= Seq::<usize>::empty());
    } else {
        let e = d.drop_last();
        assert(dims_fit(e));
        lemma_product_reversed(e);
        lemma_product_front(shape_of(d));
        assert(shape_of(d).drop_first() =~= shape_of(e));
        assert(shape_of(d)[0] == d.last());
        let x = d.last() as int;
        let p = dims_product(e);
        assert(x * p == p * x) by (nonlinear_arith);
    }
}

} // verus!
