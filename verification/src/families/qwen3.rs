//! The Qwen3 family: `from_yamf` moves the loader's tensors into named
//! fields and validates them at this border (presence, shape against the
//! config's derived dims, no leftovers); `forward` checks the ids a
//! forward pass is asked for and lays out the integer dimensions it runs
//! with. The lookup by name happens once, at build, never during
//! generation.

use vstd::prelude::*;
use vstd::utf8::encode_utf8;

use crate::loader::config::{FamilyConfig, Qwen3Config};
use crate::loader::index::VocabIndex;
use crate::loader::plan::{
    block_name, entry_name_list, entry_names, entry_views, expected_entries, expected_list,
    lemma_bytes_lt_order, name_lt, same_shape,
};
use crate::loader::vocab::{index_of, lemma_index_of, views};
use crate::loader::yamf::{
    hands_over_expected, lemma_tensor_position, tensor_lookup, tensor_position, RawSpec, RawTensor,
    TensorSeq, Yamf, YamfSpec,
};
use crate::loader::error::usize_nats;
use crate::text::{dec, dec_list, push_dec, push_str, str_eq, text};

verus! {

// -------------------------------------------------------------- errors

/// The ways the family module can refuse or fail.
#[derive(Debug)]
pub enum FamilyError {
    /// `from_yamf` could not assemble the family from the Yamf.
    Build { reason: String },
    /// A failure inside the forward pass.
    Forward { reason: String },
}

impl FamilyError {
    /// A forward-pass failure with this reason.
    pub fn forward(reason: &str) -> (e: FamilyError)
        ensures
            e is Forward && e->Forward_reason@ == reason@,
    {
        FamilyError::Forward { reason: text(reason) }
    }

    /// The message: the failed stage, then the reason.
    pub open spec fn message(&self) -> Seq<char> {
        match self {
            FamilyError::Build { reason } => "family build failed: "@ + reason@,
            FamilyError::Forward { reason } => "forward pass failed: "@ + reason@,
        }
    }

    /// The human-readable message.
    pub fn to_string(&self) -> (r: String)
        ensures
            r@ == self.message(),
    {
        let mut out = String::new();
        match self {
            FamilyError::Build { reason } => {
                push_str(&mut out, "family build failed: ");
                push_str(&mut out, reason.as_str());
            },
            FamilyError::Forward { reason } => {
                push_str(&mut out, "forward pass failed: ");
                push_str(&mut out, reason.as_str());
            },
        }
        out
    }
}

// -------------------------------------------------------------- family

/// One transformer block's eleven tensors, held by name.
pub struct Block {
    pub attn_norm: RawTensor,
    pub attn_q: RawTensor,
    pub attn_k: RawTensor,
    pub attn_v: RawTensor,
    pub attn_q_norm: RawTensor,
    pub attn_k_norm: RawTensor,
    pub attn_output: RawTensor,
    pub ffn_norm: RawTensor,
    pub ffn_gate: RawTensor,
    pub ffn_up: RawTensor,
    pub ffn_down: RawTensor,
}

/// A block's tensors in the order of the block suffixes.
pub open spec fn block_views(b: Block) -> Seq<RawSpec> {
    seq![
        b.attn_norm@,
        b.attn_q@,
        b.attn_k@,
        b.attn_v@,
        b.attn_q_norm@,
        b.attn_k_norm@,
        b.attn_output@,
        b.ffn_norm@,
        b.ffn_gate@,
        b.ffn_up@,
        b.ffn_down@,
    ]
}

/// The Qwen3 family: the config and every tensor in a named field.
pub struct Qwen3 {
    /// The family's numbers.
    pub cfg: Qwen3Config,
    /// token_embd.weight, [vocab, hidden]
    pub embed: RawTensor,
    /// num_hidden_layers blocks
    pub blocks: Vec<Block>,
    /// output_norm.weight, [hidden]
    pub output_norm: RawTensor,
    /// output.weight when the head is untied; tied to `embed` otherwise
    pub lm_head: Option<RawTensor>,
}

impl Qwen3 {
    pub open spec fn spec_config(&self) -> Qwen3Config {
        self.cfg
    }

    /// The config the family was built with.
    pub fn config(&self) -> (r: &Qwen3Config)
        ensures
            *r == self.spec_config(),
    {
        &self.cfg
    }
}

/// The tensor under `e`'s name is present with `e`'s shape.
pub open spec fn present_with_shape(ts: TensorSeq, e: (Seq<char>, Seq<usize>)) -> bool {
    tensor_lookup(ts, e.0) matches Some(t) && t.shape == e.1
}

/// What `from_yamf` accepts: every expected tensor present with its
/// shape, an `output.weight` (untied head) only with shape [vocab,
/// hidden], and nothing else.
pub open spec fn family_accepts(cfg: Qwen3Config, ts: TensorSeq) -> bool {
    &&& forall|i: int|
        0 <= i < expected_entries(cfg).len() ==> #[trigger] present_with_shape(
            ts,
            expected_entries(cfg)[i],
        )
    &&& (tensor_lookup(ts, "output.weight"@) matches Some(t) ==> t.shape == seq![
        cfg.vocab_size as usize,
        cfg.hidden_size as usize,
    ])
    &&& forall|j: int|
        0 <= j < ts.len() ==> entry_names(expected_entries(cfg)).contains(#[trigger] ts[j].0)
            || ts[j].0 == "output.weight"@
}

/// The refusal of a required tensor that is absent.
pub open spec fn absent_message(name: Seq<char>) -> Seq<char> {
    "required tensor \""@ + name + "\" absent from Yamf"@
}

/// The refusal of a tensor whose shape is not the required one.
pub open spec fn shape_mismatch_message(name: Seq<char>, got: Seq<usize>, want: Seq<usize>) -> Seq<
    char,
> {
    "tensor \""@ + name + "\" shape "@ + dec_list(usize_nats(got)) + ", expected "@ + dec_list(
        usize_nats(want),
    )
}

/// Why the entry `e` (a name and a shape) is not acceptable in `ts`.
pub open spec fn take_refusal(ts: TensorSeq, e: (Seq<char>, Seq<usize>)) -> Seq<char> {
    match tensor_lookup(ts, e.0) {
        None => absent_message(e.0),
        Some(t) => shape_mismatch_message(e.0, t.shape, e.1),
    }
}

/// The first entry of `es` that is not present with its shape.
pub open spec fn first_unaccepted(ts: TensorSeq, es: Seq<(Seq<char>, Seq<usize>)>) -> Option<int>
    decreases es.len(),
{
    if es.len() == 0 {
        None
    } else {
        match first_unaccepted(ts, es.drop_last()) {
            Some(i) => Some(i),
            None => if present_with_shape(ts, es.last()) {
                None
            } else {
                Some(es.len() - 1)
            },
        }
    }
}

proof fn lemma_first_unaccepted(ts: TensorSeq, es: Seq<(Seq<char>, Seq<usize>)>)
    ensures
        match first_unaccepted(ts, es) {
            Some(i) => 0 <= i < es.len() && !present_with_shape(ts, es[i]) && forall|j: int|
                0 <= j < i ==> #[trigger] present_with_shape(ts, es[j]),
            None => forall|j: int| 0 <= j < es.len() ==> #[trigger] present_with_shape(ts, es[j]),
        },
    decreases es.len(),
{
    if es.len() > 0 {
        let d = es.drop_last();
        lemma_first_unaccepted(ts, d);
        assert forall|j: int| 0 <= j < d.len() implies d[j] == es[j] by {}
    }
}

/// The position of the first entry of `es` not present with its shape is
/// `i`: every entry before it is, and it is not.
proof fn lemma_first_unaccepted_at(ts: TensorSeq, es: Seq<(Seq<char>, Seq<usize>)>, i: int)
    requires
        0 <= i < es.len(),
        !present_with_shape(ts, es[i]),
        forall|j: int| 0 <= j < i ==> #[trigger] present_with_shape(ts, es[j]),
    ensures
        first_unaccepted(ts, es) == Some(i),
{
    lemma_first_unaccepted(ts, es);
    match first_unaccepted(ts, es) {
        Some(k) => {
            if k < i {
                assert(present_with_shape(ts, es[k]));
            } else if k > i {
                assert(present_with_shape(ts, es[i]));
            }
        },
        None => {
            assert(present_with_shape(ts, es[i]));
        },
    }
}

fn shape_message(name: &str, got: &Vec<usize>, want: &Vec<usize>) -> (e: FamilyError)
    ensures
        e matches FamilyError::Build { reason } && reason@ == shape_mismatch_message(
            name@,
            got@,
            want@,
        ),
{
    let mut reason = text("tensor \"");
    push_str(&mut reason, name);
    push_str(&mut reason, "\" shape ");
    let g = crate::loader::error::widen(got.as_slice());
    crate::text::push_dec_list(&mut reason, g.as_slice());
    push_str(&mut reason, ", expected ");
    let w = crate::loader::error::widen(want.as_slice());
    crate::text::push_dec_list(&mut reason, w.as_slice());
    proof {
        assert(reason@ =~= shape_mismatch_message(name@, got@, want@));
    }
    FamilyError::Build { reason }
}

/// The tensor under `name`, which must have shape `want`.
fn take(y: &Yamf, name: &str, want: &Vec<usize>) -> (r: Result<RawTensor, FamilyError>)
    ensures
        r is Ok <==> present_with_shape(y.tensors@, (name@, want@)),
        r matches Ok(t) ==> Some(t@) == tensor_lookup(y.tensors@, name@),
        r matches Err(e) ==> e matches FamilyError::Build { reason } && reason@ == take_refusal(
            y.tensors@,
            (name@, want@),
        ),
{
    match y.tensors.get(name) {
        None => {
            let mut reason = text("required tensor \"");
            push_str(&mut reason, name);
            push_str(&mut reason, "\" absent from Yamf");
            proof {
                assert(reason@ =~= absent_message(name@));
            }
            Err(FamilyError::Build { reason })
        },
        Some(t) => {
            if !same_shape(&t.shape, want) {
                return Err(shape_message(name, &t.shape, want));
            }
            Ok(t.duplicate())
        },
    }
}

/// Entry `i` of the expected set, taken.
fn take_entry(y: &Yamf, expected: &Vec<(String, Vec<usize>)>, i: usize, cfg: Ghost<Qwen3Config>) -> (r: Result<
    RawTensor,
    FamilyError,
>)
    requires
        entry_views(expected@) == expected_entries(cfg@),
        i < expected@.len(),
    ensures
        r is Ok <==> present_with_shape(y.tensors@, expected_entries(cfg@)[i as int]),
        r matches Ok(t) ==> Some(t@) == tensor_lookup(y.tensors@, expected_entries(cfg@)[i as int].0),
        r matches Err(e) ==> e matches FamilyError::Build { reason } && reason@ == take_refusal(
            y.tensors@,
            expected_entries(cfg@)[i as int],
        ),
{
    proof {
        assert(entry_views(expected@).len() == expected@.len());
        assert(entry_views(expected@)[i as int] == (expected@[i as int].0@, expected@[i as int].1@));
    }
    take(y, expected[i].0.as_str(), &expected[i].1)
}

/// Block `n`'s eleven entries of the expected set.
pub open spec fn block_entries(cfg: Qwen3Config, n: int) -> Seq<(Seq<char>, Seq<usize>)> {
    expected_entries(cfg).subrange(2 + 11 * n, 2 + 11 * n + 11)
}

/// Block `n`'s eleven tensors, taken in suffix order.
#[verifier::rlimit(50)]
#[verifier::spinoff_prover]
fn take_block(y: &Yamf, expected: &Vec<(String, Vec<usize>)>, n: u32, cfg: Ghost<Qwen3Config>) -> (r: Result<
    Block,
    FamilyError,
>)
    requires
        entry_views(expected@) == expected_entries(cfg@),
        n < cfg@.num_hidden_layers,
    ensures
        r is Ok <==> forall|k: int|
            0 <= k < 11 ==> #[trigger] present_with_shape(
                y.tensors@,
                expected_entries(cfg@)[2 + 11 * n + k],
            ),
        r matches Ok(b) ==> forall|k: int|
            0 <= k < 11 ==> Some(#[trigger] block_views(b)[k]) == tensor_lookup(
                y.tensors@,
                expected_entries(cfg@)[2 + 11 * n + k].0,
            ),
        r matches Err(e) ==> first_unaccepted(y.tensors@, block_entries(cfg@, n as int)) matches Some(
            k,
        ) && e matches FamilyError::Build { reason } && reason@ == take_refusal(
            y.tensors@,
            block_entries(cfg@, n as int)[k],
        ),
{
    let total = expected.len();
    proof {
        assert(entry_views(expected@).len() == expected@.len());
        assert(expected@.len() == 2 + 11 * cfg@.num_hidden_layers);
        assert(2 + 11 * n + 11 <= expected@.len()) by (nonlinear_arith)
            requires
                n < cfg@.num_hidden_layers,
                expected@.len() == 2 + 11 * cfg@.num_hidden_layers,
        ;
    }
    let base: usize = 2 + 11 * (n as usize);
    let ghost ts = y.tensors@;
    let ghost es = expected_entries(cfg@);
    let ghost be = block_entries(cfg@, n as int);
    let mut parts: Vec<RawTensor> = Vec::new();
    let mut k: usize = 0;
    while k < 11
        invariant
            entry_views(expected@) == expected_entries(cfg@),
            base == 2 + 11 * n,
            total == expected@.len(),
            base + 11 <= total,
            ts == y.tensors@,
            es == expected_entries(cfg@),
            be == es.subrange(base as int, base + 11),
            k <= 11,
            parts@.len() == k,
            forall|j: int| 0 <= j < k ==> #[trigger] present_with_shape(ts, be[j]),
            forall|j: int| 0 <= j < k ==> Some(#[trigger] parts@[j]@) == tensor_lookup(ts, be[j].0),
        decreases 11 - k,
    {
        match take_entry(y, expected, base + k, cfg) {
            Ok(t) => {
                proof {
                    assert(be[k as int] == es[base + k]);
                }
                parts.push(t);
            },
            Err(e) => {
                proof {
                    assert(be[k as int] == es[base + k]);
                    lemma_first_unaccepted_at(ts, be, k as int);
                }
                return Err(e);
            },
        }
        k = k + 1;
    }
    let ghost all = parts@;
    let ffn_down = parts.pop().unwrap();
    let ffn_up = parts.pop().unwrap();
    let ffn_gate = parts.pop().unwrap();
    let ffn_norm = parts.pop().unwrap();
    let attn_output = parts.pop().unwrap();
    let attn_k_norm = parts.pop().unwrap();
    let attn_q_norm = parts.pop().unwrap();
    let attn_v = parts.pop().unwrap();
    let attn_k = parts.pop().unwrap();
    let attn_q = parts.pop().unwrap();
    let attn_norm = parts.pop().unwrap();
    let b = Block {
        attn_norm,
        attn_q,
        attn_k,
        attn_v,
        attn_q_norm,
        attn_k_norm,
        attn_output,
        ffn_norm,
        ffn_gate,
        ffn_up,
        ffn_down,
    };
    proof {
        assert(block_views(b) =~= all.map_values(|t: RawTensor| t@));
        assert forall|k: int| 0 <= k < 11 implies #[trigger] present_with_shape(ts, es[2 + 11 * n + k])
            by {
            assert(be[k] == es[2 + 11 * n + k]);
        }
        assert forall|k: int| 0 <= k < 11 implies Some(#[trigger] block_views(b)[k]) == tensor_lookup(
            ts,
            es[2 + 11 * n + k].0,
        ) by {
            assert(be[k] == es[2 + 11 * n + k]);
            assert(block_views(b)[k] == all[k]@);
        }
    }
    Ok(b)
}

/// The query and key/value row counts fit the u32 arithmetic that derives
/// them.
pub open spec fn head_rows_fit(cfg: Qwen3Config) -> bool {
    &&& cfg.num_attention_heads * cfg.head_dim <= u32::MAX
    &&& cfg.num_key_value_heads * cfg.head_dim <= u32::MAX
}

pub open spec fn family_config_of(f: FamilyConfig) -> Qwen3Config {
    match f {
        FamilyConfig::Qwen3(c) => c,
    }
}

/// The name that the pick at position `p` stands for.
pub open spec fn pick_name(names: Seq<String>, picks: Seq<usize>, p: int) -> Seq<char> {
    names[picks[p] as int]@
}

/// `r` holds the picks at the distinct positions `pos`, their names in
/// order, and no pick left out names anything that sorts before a chosen
/// one.
pub open spec fn chosen_first(
    names: Seq<String>,
    picks: Seq<usize>,
    r: Seq<usize>,
    pos: Seq<int>,
) -> bool {
    &&& pos.len() == r.len()
    &&& pos.no_duplicates()
    &&& forall|q: int| 0 <= q < pos.len() ==> 0 <= #[trigger] pos[q] < picks.len() && r[q] == picks[pos[q]]
    &&& forall|q1: int, q2: int|
        0 <= q1 < q2 < pos.len() ==> !name_lt(
            pick_name(names, picks, #[trigger] pos[q2]),
            pick_name(names, picks, #[trigger] pos[q1]),
        )
    &&& forall|p: int, q: int|
        #![trigger pos.contains(p), pos[q]]
        0 <= p < picks.len() && !pos.contains(p) && 0 <= q < pos.len() ==> !name_lt(
            pick_name(names, picks, p),
            pick_name(names, picks, pos[q]),
        )
}

/// Fewer than `n` distinct positions leave one of `0..n` out.
proof fn lemma_some_left_out(pos: Seq<int>, n: int)
    requires
        pos.len() < n,
        pos.no_duplicates(),
    ensures
        exists|p: int| 0 <= p < n && !pos.contains(p),
{
    if forall|p: int| 0 <= p < n ==> pos.contains(p) {
        broadcast use vstd::seq_lib::seq_to_set_is_finite;

        pos.unique_seq_to_set();
        vstd::set_lib::lemma_int_range(0, n);
        assert(vstd::set_lib::set_int_range(0, n).subset_of(pos.to_set()));
        vstd::set_lib::lemma_len_subset(vstd::set_lib::set_int_range(0, n), pos.to_set());
    }
}

/// Up to three of the picked names, alphabetically first, in order: as
/// many as there are picks, at most three, chosen from distinct picks and
/// sorted by their bytes, with no pick left out sorting before a chosen one.
fn first_in_order(names: &Vec<String>, picks: &Vec<usize>) -> (r: Vec<usize>)
    requires
        forall|q: int| 0 <= q < picks@.len() ==> #[trigger] picks@[q] < names@.len(),
    ensures
        r@.len() == if picks@.len() < 3 {
            picks@.len()
        } else {
            3
        },
        forall|q: int| 0 <= q < r@.len() ==> #[trigger] r@[q] < names@.len(),
        exists|pos: Seq<int>| chosen_first(names@, picks@, r@, pos),
{
    let mut taken: Vec<bool> = Vec::new();
    while taken.len() < picks.len()
        invariant
            taken@.len() <= picks@.len(),
            forall|p: int| 0 <= p < taken@.len() ==> !#[trigger] taken@[p],
        decreases picks.len() - taken.len(),
    {
        taken.push(false);
    }
    let mut out: Vec<usize> = Vec::new();
    let ghost mut pos: Seq<int> = Seq::empty();
    proof {
        assert(pos.no_duplicates());
    }
    while out.len() < 3 && out.len() < picks.len()
        invariant
            taken@.len() == picks@.len(),
            out@.len() <= 3,
            out@.len() <= picks@.len(),
            forall|q: int| 0 <= q < picks@.len() ==> #[trigger] picks@[q] < names@.len(),
            forall|q: int| 0 <= q < out@.len() ==> #[trigger] out@[q] < names@.len(),
            forall|p: int| 0 <= p < picks@.len() ==> (#[trigger] taken@[p] <==> pos.contains(p)),
            chosen_first(names@, picks@, out@, pos),
        decreases picks.len() - out.len(),
    {
        let mut best: Option<usize> = None;
        let mut a: usize = 0;
        while a < picks.len()
            invariant
                taken@.len() == picks@.len(),
                a <= picks@.len(),
                forall|q: int| 0 <= q < picks@.len() ==> #[trigger] picks@[q] < names@.len(),
                best is None ==> forall|p: int| 0 <= p < a ==> #[trigger] taken@[p],
                best matches Some(x) ==> {
                    &&& x < a
                    &&& !taken@[x as int]
                    &&& forall|p: int|
                        0 <= p < a && !#[trigger] taken@[p] ==> !name_lt(
                            pick_name(names@, picks@, p),
                            pick_name(names@, picks@, x as int),
                        )
                },
            decreases picks.len() - a,
        {
            if !taken[a] {
                let better = match best {
                    None => true,
                    Some(x) => crate::loader::plan::bytes_less(
                        names[picks[a]].as_str().as_bytes(),
                        names[picks[x]].as_str().as_bytes(),
                    ),
                };
                proof {
                    let na = pick_name(names@, picks@, a as int);
                    lemma_bytes_lt_order(encode_utf8(na), encode_utf8(na), encode_utf8(na));
                    if let Some(x) = best {
                        let nx = pick_name(names@, picks@, x as int);
                        assert(better == name_lt(na, nx));
                        if better {
                            assert forall|p: int|
                                0 <= p < a && !#[trigger] taken@[p] implies !name_lt(
                                pick_name(names@, picks@, p),
                                na,
                            ) by {
                                let np = pick_name(names@, picks@, p);
                                lemma_bytes_lt_order(encode_utf8(np), encode_utf8(na), encode_utf8(nx));
                            }
                        }
                    }
                }
                if better {
                    best = Some(a);
                }
            }
            a = a + 1;
        }
        match best {
            Some(x) => {
                let ghost old_pos = pos;
                let ghost old_out = out@;
                taken.set(x, true);
                out.push(picks[x]);
                proof {
                    pos = pos.push(x as int);
                    assert(!old_pos.contains(x as int));
                    assert forall|p: int| 0 <= p < picks@.len() implies (#[trigger] taken@[p]
                        <==> pos.contains(p)) by {
                        if p != x {
                            if old_pos.contains(p) {
                                let k = choose|k: int| 0 <= k < old_pos.len() && old_pos[k] == p;
                                assert(pos[k] == p);
                            }
                            if pos.contains(p) {
                                let k = choose|k: int| 0 <= k < pos.len() && pos[k] == p;
                                assert(old_pos[k] == p);
                            }
                        } else {
                            assert(pos[pos.len() - 1] == p);
                        }
                    }
                    assert(pos.no_duplicates()) by {
                        assert forall|i: int, j: int|
                            0 <= i < pos.len() && 0 <= j < pos.len() && i != j implies pos[i]
                            != pos[j] by {
                            if j == pos.len() - 1 {
                                assert(old_pos[i] == pos[i]);
                            } else if i == pos.len() - 1 {
                                assert(old_pos[j] == pos[j]);
                            }
                        }
                    }
                    assert forall|q1: int, q2: int| 0 <= q1 < q2 < pos.len() implies !name_lt(
                        pick_name(names@, picks@, #[trigger] pos[q2]),
                        pick_name(names@, picks@, #[trigger] pos[q1]),
                    ) by {
                        if q2 == pos.len() - 1 {
                            assert(old_pos.contains(old_pos[q1]));
                            assert(old_pos[q1] == pos[q1]);
                        }
                    }
                    assert forall|p: int, q: int|
                        #![trigger pos.contains(p), pos[q]]
                        0 <= p < picks@.len() && !pos.contains(p) && 0 <= q < pos.len() implies !name_lt(
                        pick_name(names@, picks@, p),
                        pick_name(names@, picks@, pos[q]),
                    ) by {
                        assert(!taken@[p]);
                        if q < pos.len() - 1 {
                            assert(old_pos[q] == pos[q]);
                            assert(!old_pos.contains(p)) by {
                                if old_pos.contains(p) {
                                    let k = choose|k: int| 0 <= k < old_pos.len() && old_pos[k] == p;
                                    assert(pos[k] == p);
                                }
                            }
                            assert(old_pos.contains(p) == false);
                        }
                    }
                    assert(chosen_first(names@, picks@, out@, pos));
                }
            },
            None => {
                proof {
                    lemma_some_left_out(pos, picks@.len() as int);
                    let p = choose|p: int| 0 <= p < picks@.len() && !pos.contains(p);
                    assert(taken@[p]);
                }
                return out;
            },
        }
    }
    proof {
        assert(chosen_first(names@, picks@, out@, pos));
    }
    out
}

/// The shape of an untied lm head: [vocab, hidden].
pub open spec fn head_shape(cfg: Qwen3Config) -> Seq<usize> {
    seq![cfg.vocab_size as usize, cfg.hidden_size as usize]
}

/// A tensor name the family does not explain.
pub open spec fn is_leftover(cfg: Qwen3Config, name: Seq<char>) -> bool {
    !entry_names(expected_entries(cfg)).contains(name) && name != "output.weight"@
}

/// How many of the first `n` tensors are leftovers.
pub open spec fn leftover_count(cfg: Qwen3Config, ts: TensorSeq, n: int) -> nat
    decreases n,
{
    if n <= 0 {
        0
    } else {
        leftover_count(cfg, ts, n - 1) + if is_leftover(cfg, ts[n - 1].0) {
            1nat
        } else {
            0nat
        }
    }
}

/// How the refusal of leftover tensors begins; the names of up to three
/// of them follow.
pub open spec fn leftover_prefix(count: nat) -> Seq<char> {
    dec(count) + " leftover tensors after building blocks (first: ["@
}

/// The refusal is for an expected tensor or for the untied head, and
/// `family_refusal` is its whole text.
pub open spec fn refusal_is_exact(cfg: Qwen3Config, ts: TensorSeq) -> bool {
    ||| first_unaccepted(ts, expected_entries(cfg)) is Some
    ||| tensor_lookup(ts, "output.weight"@) matches Some(t) && t.shape != head_shape(cfg)
}

/// What `from_yamf` answers a bundle it refuses: the first expected
/// tensor (in the expected order) that is absent or misshapen; else an
/// untied head of the wrong shape; else the leftover count, which the
/// message follows with up to three leftover names.
pub open spec fn family_refusal(cfg: Qwen3Config, ts: TensorSeq) -> Seq<char> {
    match first_unaccepted(ts, expected_entries(cfg)) {
        Some(i) => take_refusal(ts, expected_entries(cfg)[i]),
        None => match tensor_lookup(ts, "output.weight"@) {
            Some(t) => if t.shape != head_shape(cfg) {
                shape_mismatch_message("output.weight"@, t.shape, head_shape(cfg))
            } else {
                leftover_prefix(leftover_count(cfg, ts, ts.len() as int))
            },
            None => leftover_prefix(leftover_count(cfg, ts, ts.len() as int)),
        },
    }
}

proof fn lemma_take_extended(a: Seq<char>, b: Seq<char>, n: int)
    requires
        0 <= n <= a.len(),
        a.len() <= b.len(),
        b.take(a.len() as int) == a,
    ensures
        b.take(n) == a.take(n),
{
    assert forall|i: int| 0 <= i < n implies b.take(n)[i] == a.take(n)[i] by {
        assert(b.take(a.len() as int)[i] == b[i]);
    }
    assert(b.take(n) =~= a.take(n));
}

/// Build the family from the loader's border bundle. Yamf's fields are
/// public, so a hand-built bundle can skip the loader: this is the module's
/// own door.
pub fn from_yamf(y: &Yamf) -> (r: Result<Qwen3, FamilyError>)
    requires
        head_rows_fit(family_config_of(y.family)),
    ensures
        r is Ok <==> family_accepts(family_config_of(y.family), y.tensors@),
        r matches Ok(m) ==> {
            let cfg = family_config_of(y.family);
            let ts = y.tensors@;
            &&& m.spec_config() == cfg
            &&& Some(m.embed@) == tensor_lookup(ts, "token_embd.weight"@)
            &&& Some(m.output_norm@) == tensor_lookup(ts, "output_norm.weight"@)
            &&& m.blocks@.len() == cfg.num_hidden_layers
            &&& forall|n: int, k: int|
                0 <= n < cfg.num_hidden_layers && 0 <= k < 11 ==> Some(
                    #[trigger] block_views(m.blocks@[n])[k],
                ) == tensor_lookup(ts, block_name(n as nat, k))
            &&& match m.lm_head {
                Some(h) => Some(h@) == tensor_lookup(ts, "output.weight"@),
                None => tensor_lookup(ts, "output.weight"@) is None,
            }
        },
        r matches Err(e) ==> e matches FamilyError::Build { reason } && {
            let cfg = family_config_of(y.family);
            let m = family_refusal(cfg, y.tensors@);
            &&& m.len() <= reason@.len()
            &&& reason@.take(m.len() as int) == m
            &&& refusal_is_exact(cfg, y.tensors@) ==> reason@ == m
        },
{
    let cfg = match y.family {
        FamilyConfig::Qwen3(c) => c,
    };
    let ghost ts = y.tensors@;
    let ghost es = expected_entries(cfg);
    let expected = expected_list(&cfg);
    proof {
        assert(entry_views(expected@).len() == expected@.len());
        assert(es[0].0 == "token_embd.weight"@);
        assert(es[1].0 == "output_norm.weight"@);
    }
    let embed = match take_entry(y, &expected, 0, Ghost(cfg)) {
        Ok(t) => t,
        Err(e) => {
            proof {
                lemma_first_unaccepted_at(ts, es, 0);
                assert(e->Build_reason@ =~= e->Build_reason@.take(e->Build_reason@.len() as int));
            }
            return Err(e);
        },
    };
    let output_norm = match take_entry(y, &expected, 1, Ghost(cfg)) {
        Ok(t) => t,
        Err(e) => {
            proof {
                lemma_first_unaccepted_at(ts, es, 1);
                assert(e->Build_reason@ =~= e->Build_reason@.take(e->Build_reason@.len() as int));
            }
            return Err(e);
        },
    };
    let mut blocks: Vec<Block> = Vec::new();
    let mut n: u32 = 0;
    while n < cfg.num_hidden_layers
        invariant
            entry_views(expected@) == expected_entries(cfg),
            ts == y.tensors@,
            es == expected_entries(cfg),
            cfg == family_config_of(y.family),
            present_with_shape(ts, es[0]),
            present_with_shape(ts, es[1]),
            n <= cfg.num_hidden_layers,
            blocks@.len() == n,
            forall|i: int| 2 <= i < 2 + 11 * n ==> #[trigger] present_with_shape(ts, es[i]),
            forall|m: int, k: int|
                0 <= m < n && 0 <= k < 11 ==> Some(#[trigger] block_views(blocks@[m])[k])
                    == tensor_lookup(ts, block_name(m as nat, k)),
        decreases cfg.num_hidden_layers - n,
    {
        match take_block(y, &expected, n, Ghost(cfg)) {
            Ok(b) => {
                proof {
                    assert forall|k: int| 0 <= k < 11 implies es[2 + 11 * n + k].0 == block_name(
                        n as nat,
                        k,
                    ) by {
                        let i = 2 + 11 * n + k;
                        assert((i - 2) / 11 == n as int && (i - 2) % 11 == k) by (nonlinear_arith)
                            requires
                                i == 2 + 11 * n + k,
                                0 <= k < 11,
                                0 <= n,
                        ;
                    }
                }
                let ghost before = blocks@;
                blocks.push(b);
                proof {
                    assert forall|i: int| 2 <= i < 2 + 11 * (n + 1) implies #[trigger] present_with_shape(
                        ts,
                        es[i],
                    ) by {
                        if i >= 2 + 11 * n {
                            let k = i - (2 + 11 * n);
                            assert(present_with_shape(ts, es[2 + 11 * n + k]));
                        }
                    }
                    assert forall|m: int, k: int|
                        0 <= m < n + 1 && 0 <= k < 11 implies Some(
                        #[trigger] block_views(blocks@[m])[k],
                    ) == tensor_lookup(ts, block_name(m as nat, k)) by {
                        if m < n {
                            assert(blocks@[m] == before[m]);
                        } else {
                            assert(Some(block_views(b)[k]) == tensor_lookup(ts, es[2 + 11 * n + k].0));
                        }
                    }
                }
            },
            Err(e) => {
                proof {
                    let be = block_entries(cfg, n as int);
                    lemma_first_unaccepted(ts, be);
                    let k = first_unaccepted(ts, be)->Some_0;
                    assert(0 <= 2 + 11 * n + k < es.len()) by (nonlinear_arith)
                        requires
                            0 <= k < 11,
                            n < cfg.num_hidden_layers,
                            es.len() == 2 + 11 * cfg.num_hidden_layers,
                    ;
                    assert(be[k] == es[2 + 11 * n + k]);
                    assert forall|j: int| 0 <= j < 2 + 11 * n + k implies #[trigger] present_with_shape(
                        ts,
                        es[j],
                    ) by {
                        if j >= 2 + 11 * n {
                            assert(be[j - (2 + 11 * n)] == es[j]);
                            assert(present_with_shape(ts, be[j - (2 + 11 * n)]));
                        }
                    }
                    lemma_first_unaccepted_at(ts, es, 2 + 11 * n + k);
                    assert(!family_accepts(cfg, ts)) by {
                        assert(!present_with_shape(ts, es[2 + 11 * n + k]));
                    }
                    assert(e->Build_reason@ == take_refusal(ts, es[2 + 11 * n + k]));
                    assert(e->Build_reason@ == family_refusal(cfg, ts));
                    assert(refusal_is_exact(cfg, ts));
                    assert(e->Build_reason@ =~= e->Build_reason@.take(e->Build_reason@.len() as int));
                }
                return Err(e);
            },
        }
        n = n + 1;
    }
    // output.weight is optional: present when the size unties the head
    let lm_head = match y.tensors.get("output.weight") {
        Some(t) => {
            let mut want: Vec<usize> = Vec::new();
            want.push(cfg.vocab_size as usize);
            want.push(cfg.hidden_size as usize);
            if !same_shape(&t.shape, &want) {
                let e = shape_message("output.weight", &t.shape, &want);
                proof {
                    reveal_strlit("output.weight");
                    assert(want@ =~= seq![cfg.vocab_size as usize, cfg.hidden_size as usize]);
                    lemma_first_unaccepted(ts, es);
                    assert(e->Build_reason@ =~= e->Build_reason@.take(e->Build_reason@.len() as int));
                }
                return Err(e);
            }
            proof {
                assert(want@ =~= seq![cfg.vocab_size as usize, cfg.hidden_size as usize]);
            }
            Some(t.duplicate())
        },
        None => None,
    };
    // nothing may be left over
    let names = y.tensors.names();
    proof {
        assert(views(names@).len() == names@.len());
    }
    let exp_names = entry_name_list(&expected);
    let index = VocabIndex::build(&exp_names);
    let mut leftovers: Vec<usize> = Vec::new();
    let mut j: usize = 0;
    while j < names.len()
        invariant
            views(names@) == ts.map_values(|e: (Seq<char>, RawSpec)| e.0),
            names@.len() == ts.len(),
            views(exp_names@) == entry_names(entry_views(expected@)),
            entry_views(expected@) == es,
            index.indexes(views(exp_names@)),
            es == expected_entries(cfg),
            j <= names@.len(),
            forall|q: int| 0 <= q < leftovers@.len() ==> #[trigger] leftovers@[q] < names@.len(),
            leftovers@.len() == leftover_count(cfg, ts, j as int),
            leftovers@.len() == 0 <==> forall|i: int|
                0 <= i < j ==> entry_names(es).contains(#[trigger] ts[i].0) || ts[i].0
                    == "output.weight"@,
        decreases names.len() - j,
    {
        let name = names[j].as_str();
        proof {
            assert(views(names@)[j as int] == names@[j as int]@);
            assert(ts[j as int].0 == name@);
            lemma_index_of(views(exp_names@), name@);
        }
        if index.find(&exp_names, name).is_none() && !str_eq(name, "output.weight") {
            leftovers.push(j);
        }
        proof {
            assert(is_leftover(cfg, ts[j as int].0) == (!views(exp_names@).contains(name@) && name@
                != "output.weight"@));
        }
        j = j + 1;
    }
    if leftovers.len() > 0 {
        let mut reason = String::new();
        push_dec(&mut reason, leftovers.len() as u64);
        push_str(&mut reason, " leftover tensors after building blocks (first: [");
        let ghost head = reason@;
        proof {
            assert(head =~= leftover_prefix(leftover_count(cfg, ts, ts.len() as int)));
        }
        let shown = first_in_order(&names, &leftovers);
        let mut k: usize = 0;
        proof {
            assert(reason@.take(head.len() as int) =~= head);
        }
        while k < shown.len()
            invariant
                forall|q: int| 0 <= q < shown@.len() ==> #[trigger] shown@[q] < names@.len(),
                head.len() <= reason@.len(),
                reason@.take(head.len() as int) == head,
            decreases shown.len() - k,
        {
            let ghost before = reason@;
            if k > 0 {
                push_str(&mut reason, ", ");
            }
            push_str(&mut reason, "\"");
            push_str(&mut reason, names[shown[k]].as_str());
            push_str(&mut reason, "\"");
            proof {
                assert(reason@.take(before.len() as int) =~= before);
                lemma_take_extended(before, reason@, head.len() as int);
            }
            k = k + 1;
        }
        let ghost before = reason@;
        push_str(&mut reason, "])");
        proof {
            assert(reason@.take(before.len() as int) =~= before);
            lemma_take_extended(before, reason@, head.len() as int);
            lemma_first_unaccepted(ts, es);
        }
        return Err(FamilyError::Build { reason });
    }
    Ok(Qwen3 { cfg, embed, blocks, output_norm, lm_head })
}

// ------------------------------------------------------------- forward

/// What a forward pass runs with: the checked ids, the sequence length,
/// and the head layout the config numbers say.
pub struct ForwardPlan {
    pub ids: Vec<u32>,
    pub seq: usize,
    pub n_heads: u32,
    pub n_kv_heads: u32,
    pub head_dim: u32,
    pub q_rows: u32,
}

/// The first position holding an id at or past the vocabulary size.
pub open spec fn first_out_of_range(ids: Seq<u32>, vocab: u32) -> Option<int>
    decreases ids.len(),
{
    if ids.len() == 0 {
        None
    } else {
        match first_out_of_range(ids.drop_last(), vocab) {
            Some(p) => Some(p),
            None => if ids.last() >= vocab {
                Some(ids.len() - 1)
            } else {
                None
            },
        }
    }
}

/// The refusal of an out-of-range id at `pos`.
pub open spec fn out_of_range_message(bad: u32, pos: int, vocab: u32) -> Seq<char> {
    "id "@ + crate::text::dec(bad as nat) + " at position "@ + crate::text::dec(pos as nat)
        + " is >= vocab_size "@ + crate::text::dec(vocab as nat)
}

impl Qwen3 {
    /// Check the ids a forward pass is asked for and lay out its integer
    /// dimensions: an empty sequence refuses, and so does any id at or
    /// past the vocabulary size (the embedding gather does no bounds check
    /// of its own), naming the first such id and its position.
    pub fn forward(&self, ids: &[u32]) -> (r: Result<ForwardPlan, FamilyError>)
        requires
            head_rows_fit(self.cfg),
        ensures
            ids@.len() == 0 ==> (r matches Err(e) && e is Forward && e->Forward_reason@
                == "ids is empty; the forward pass needs at least one token"@),
            ids@.len() > 0 ==> match first_out_of_range(ids@, self.cfg.vocab_size) {
                Some(p) => r matches Err(e) && e is Forward && e->Forward_reason@
                    == out_of_range_message(ids@[p], p, self.cfg.vocab_size),
                None => r matches Ok(plan) && plan.ids@ == ids@ && plan.seq == ids@.len()
                    && plan.n_heads == self.cfg.num_attention_heads && plan.n_kv_heads
                    == self.cfg.num_key_value_heads && plan.head_dim == self.cfg.head_dim
                    && plan.q_rows == self.cfg.num_attention_heads * self.cfg.head_dim,
            },
    {
        if ids.len() == 0 {
            return Err(FamilyError::forward("ids is empty; the forward pass needs at least one token"));
        }
        let vocab = self.cfg.vocab_size;
        let mut checked: Vec<u32> = Vec::with_capacity(ids.len());
        let mut pos: usize = 0;
        proof {
            assert(ids@.take(0) =~= Seq::<u32>::empty());
        }
        while pos < ids.len()
            invariant
                pos <= ids@.len(),
                vocab == self.cfg.vocab_size,
                checked@ == ids@.take(pos as int),
                first_out_of_range(ids@.take(pos as int), vocab) is None,
            decreases ids.len() - pos,
        {
            let id = ids[pos];
            proof {
                assert(ids@.take(pos + 1).drop_last() =~= ids@.take(pos as int));
                assert(ids@.take(pos + 1).last() == id);
            }
            if id >= vocab {
                proof {
                    assert(first_out_of_range(ids@.take(pos + 1), vocab) == Some(pos as int));
                    lemma_first_out_of_range_prefix(ids@, vocab, pos + 1);
                }
                let mut reason = text("id ");
                push_dec(&mut reason, id as u64);
                push_str(&mut reason, " at position ");
                push_dec(&mut reason, pos as u64);
                push_str(&mut reason, " is >= vocab_size ");
                push_dec(&mut reason, vocab as u64);
                return Err(FamilyError::Forward { reason });
            }
            checked.push(id);
            pos = pos + 1;
        }
        proof {
            assert(ids@.take(ids@.len() as int) =~= ids@);
        }
        Ok(
            ForwardPlan {
                ids: checked,
                seq: ids.len(),
                n_heads: self.cfg.num_attention_heads,
                n_kv_heads: self.cfg.num_key_value_heads,
                head_dim: self.cfg.head_dim,
                q_rows: self.cfg.num_attention_heads * self.cfg.head_dim,
            },
        )
    }
}

proof fn lemma_first_out_of_range_prefix(ids: Seq<u32>, vocab: u32, k: int)
    requires
        0 <= k <= ids.len(),
        first_out_of_range(ids.take(k), vocab) is Some,
    ensures
        first_out_of_range(ids, vocab) == first_out_of_range(ids.take(k), vocab),
    decreases ids.len() - k,
{
    if k < ids.len() {
        assert(ids.take(k + 1).drop_last() =~= ids.take(k));
        lemma_first_out_of_range_prefix(ids, vocab, k + 1);
    } else {
        assert(ids.take(k) =~= ids);
    }
}

/// What the loader hands over, this family accepts: for every bundle that
/// `load_bytes` returns, the head rows fit (so `from_yamf` may be called)
/// and `from_yamf` builds the model.
pub proof fn lemma_loaded_bundle_accepted(y: YamfSpec)
    requires
        hands_over_expected(y),
    ensures
        head_rows_fit(family_config_of(y.family)),
        family_accepts(family_config_of(y.family), y.tensors),
{
    let cfg = family_config_of(y.family);
    let ts = y.tensors;
    let es = expected_entries(cfg);
    crate::loader::plan::lemma_expected_names_distinct(cfg);
    assert forall|i: int| 0 <= i < es.len() implies #[trigger] present_with_shape(ts, es[i]) by {
        let name = es[i].0;
        assert(entry_names(es)[i] == name);
        assert(entry_names(es).contains(name));
        lemma_tensor_position(ts, name);
        let j = choose|j: int| 0 <= j < ts.len() && #[trigger] ts[j].0 == name;
        let p = tensor_position(ts, name)->Some_0;
        assert(ts[p].0 == name);
        assert(crate::loader::plan::expected_shape(cfg, ts[p].0) == Some(ts[p].1.shape));
    }
    if let Some(t) = tensor_lookup(ts, "output.weight"@) {
        lemma_tensor_position(ts, "output.weight"@);
        let p = tensor_position(ts, "output.weight"@)->Some_0;
        assert(ts[p].0 == "output.weight"@);
        assert(crate::loader::plan::expected_shape(cfg, ts[p].0) == Some(ts[p].1.shape));
        lemma_index_of(entry_names(es), "output.weight"@);
    }
    assert forall|j: int| 0 <= j < ts.len() implies entry_names(es).contains(#[trigger] ts[j].0)
        || ts[j].0 == "output.weight"@ by {
        assert(crate::loader::plan::expected_shape(cfg, ts[j].0) is Some);
        lemma_index_of(entry_names(es), ts[j].0);
    }
}

} // verus!
