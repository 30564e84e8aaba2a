//! The loader's first pass: the tokenizer metadata and the chat template.
//! Cheapest checks first; nothing here allocates weight memory.
//!
//! The loader refuses tokenizer kinds the tokenizer block cannot build:
//! byte-level BPE ("gpt2") with the qwen2 pre-tokenizer, a bijective
//! vocabulary, well-formed merges, typed optional template markers, and a
//! template that renders. What the tokenizer needs beyond that (the
//! byte-level alphabet, merges over the vocabulary) its own border checks.

use vstd::prelude::*;
use vstd::string::*;
use vstd::hash_set::StringHashSet;
use vstd::utf8::*;

use crate::loader::config::{
    get_str, get_u32_exact, spec_get_str, spec_get_u32_exact, spec_vocab_size, wrong_type,
};
use crate::loader::container::{
    kind_name, lemma_meta_models, lookup, meta_models, Container, KvSpec, MetaSpec, MetaValue,
};
use crate::loader::error::{ErrKind, LoaderError};
use crate::loader::index::{first_repeat, VocabIndex};
use crate::loader::template::{chat_compile, chat_render, smoke_turns, ChatTemplate};
use crate::loader::vocab::{
    contains_bytes, distinct, find_from, index_of, lemma_index_of, split_merge,
    split_merge_entry, views,
};
use crate::loader::yamf::{pair_views, token_type_of, TokenType, TokenizerData, TokenizerSpec};
use crate::text::{dec, echo, echo_text, push_dec, push_str, str_eq, text};

verus! {

broadcast use vstd::std_specs::hash::group_hash_axioms;

// ------------------------------------------------------------- header

/// The two auto-token flags: absent or false is fine, true refuses (qwen3
/// relies on the chat template, not tokenizer auto-BOS/EOS), anything
/// else is the wrong type.
pub open spec fn spec_flag(kvs: KvSpec, key: Seq<char>, human: Seq<char>) -> Result<(), ErrKind> {
    match lookup(kvs, key) {
        None => Ok(()),
        Some(MetaSpec::Bool(b)) => if b {
            Err(
                ErrKind::Structure {
                    reason: key + " is true; qwen3 relies on the chat template, not tokenizer auto-"@
                        + human,
                },
            )
        } else {
            Ok(())
        },
        Some(other) => Err(wrong_type(key, "bool"@, other)),
    }
}

/// What the header of the tokenizer block yields.
pub ghost struct HeaderSpec {
    pub pre: Seq<char>,
    pub eos: u32,
    pub template: Seq<char>,
}

/// Model kind, pre-tokenizer, eos id, the two flags, and the template,
/// in that order.
pub open spec fn spec_header(kvs: KvSpec) -> Result<HeaderSpec, ErrKind> {
    match spec_get_str(kvs, "tokenizer.ggml.model"@) {
        Err(e) => Err(e),
        Ok(model) => if model != "gpt2"@ {
            Err(
                ErrKind::Structure {
                    reason: "tokenizer model \""@ + echo_text(model)
                        + "\"; nucleon supports: gpt2 (byte-level BPE)"@,
                },
            )
        } else {
            match spec_get_str(kvs, "tokenizer.ggml.pre"@) {
                Err(e) => Err(e),
                Ok(pre) => if pre != "qwen2"@ {
                    Err(
                        ErrKind::Structure {
                            reason: "pre-tokenizer \""@ + echo_text(pre) + "\"; nucleon supports: qwen2"@,
                        },
                    )
                } else {
                    match spec_get_u32_exact(kvs, "tokenizer.ggml.eos_token_id"@) {
                        Err(e) => Err(e),
                        Ok(eos) => match spec_flag(kvs, "tokenizer.ggml.add_bos_token"@, "BOS"@) {
                            Err(e) => Err(e),
                            Ok(_) => match spec_flag(kvs, "tokenizer.ggml.add_eos_token"@, "EOS"@) {
                                Err(e) => Err(e),
                                Ok(_) => match spec_get_str(kvs, "tokenizer.chat_template"@) {
                                    Err(e) => Err(e),
                                    Ok(t) => match chat_compile(t) {
                                        Err(reason) => Err(ErrKind::Template { reason }),
                                        Ok(_) => Ok(HeaderSpec { pre, eos, template: t }),
                                    },
                                },
                            },
                        },
                    }
                },
            }
        },
    }
}

fn check_flag(c: &Container, key: &'static str, human: &str) -> (r: Result<(), LoaderError>)
    ensures
        match spec_flag(c.metadata@, key@, human@) {
            Ok(_) => r is Ok,
            Err(e) => r matches Err(x) && x@ == e,
        },
{
    match c.metadata.get(key) {
        None => Ok(()),
        Some(MetaValue::Bool(b)) => {
            if *b {
                let mut reason = text(key);
                push_str(&mut reason, " is true; qwen3 relies on the chat template, not tokenizer auto-");
                push_str(&mut reason, human);
                Err(LoaderError::Structure { reason })
            } else {
                Ok(())
            }
        },
        Some(other) => Err(LoaderError::WrongType { key: text(key), want: "bool", found: other.kind() }),
    }
}

/// Read and check the tokenizer header; compile the template.
pub fn tokenizer_header(c: &Container) -> (r: Result<(String, u32, ChatTemplate), LoaderError>)
    ensures
        match spec_header(c.metadata@) {
            Ok(h) => r matches Ok((pre, eos, t)) && pre@ == h.pre && eos == h.eos && t.spec_source()
                == h.template,
            Err(e) => r matches Err(x) && x@ == e,
        },
{
    proof {
        reveal_strlit("gpt2");
        reveal_strlit("qwen2");
    }
    let model = get_str(c, "tokenizer.ggml.model")?;
    if !str_eq(model, "gpt2") {
        let mut reason = text("tokenizer model \"");
        let shown = echo(model);
        push_str(&mut reason, shown.as_str());
        push_str(&mut reason, "\"; nucleon supports: gpt2 (byte-level BPE)");
        return Err(LoaderError::Structure { reason });
    }
    let pre = get_str(c, "tokenizer.ggml.pre")?;
    if !str_eq(pre, "qwen2") {
        let mut reason = text("pre-tokenizer \"");
        let shown = echo(pre);
        push_str(&mut reason, shown.as_str());
        push_str(&mut reason, "\"; nucleon supports: qwen2");
        return Err(LoaderError::Structure { reason });
    }
    let pre = text(pre);
    let eos = get_u32_exact(c, "tokenizer.ggml.eos_token_id")?;
    // the BOS landmine: qwen3 never prepends BOS. A file claiming
    // add_bos_token = true is a broken conversion; honoring it silently
    // is worse than refusing it loudly.
    check_flag(c, "tokenizer.ggml.add_bos_token", "BOS")?;
    check_flag(c, "tokenizer.ggml.add_eos_token", "EOS")?;
    let source = get_str(c, "tokenizer.chat_template")?;
    let template = ChatTemplate::new(text(source))?;
    Ok((pre, eos, template))
}

// ------------------------------------------------------------- arrays

/// The strings of an array's items, or the first item that is not one.
pub open spec fn strs_of(items: Seq<MetaSpec>) -> Result<Seq<Seq<char>>, MetaSpec>
    decreases items.len(),
{
    if items.len() == 0 {
        Ok(Seq::empty())
    } else {
        match strs_of(items.drop_last()) {
            Err(bad) => Err(bad),
            Ok(prefix) => match items.last() {
                MetaSpec::Str(s) => Ok(prefix.push(s)),
                other => Err(other),
            },
        }
    }
}

/// The i32 values of an array's items, or the first item that is not one.
pub open spec fn ints_of(items: Seq<MetaSpec>) -> Result<Seq<i32>, MetaSpec>
    decreases items.len(),
{
    if items.len() == 0 {
        Ok(Seq::empty())
    } else {
        match ints_of(items.drop_last()) {
            Err(bad) => Err(bad),
            Ok(prefix) => match items.last() {
                MetaSpec::I32(v) => Ok(prefix.push(v)),
                other => Err(other),
            },
        }
    }
}

proof fn lemma_strs_prefix(items: Seq<MetaSpec>, k: int)
    requires
        0 <= k <= items.len(),
        strs_of(items.take(k)) is Err,
    ensures
        strs_of(items) == strs_of(items.take(k)),
    decreases items.len() - k,
{
    if k < items.len() {
        assert(items.take(k + 1).drop_last() =~= items.take(k));
        lemma_strs_prefix(items, k + 1);
    } else {
        assert(items.take(k) =~= items);
    }
}

proof fn lemma_ints_prefix(items: Seq<MetaSpec>, k: int)
    requires
        0 <= k <= items.len(),
        ints_of(items.take(k)) is Err,
    ensures
        ints_of(items) == ints_of(items.take(k)),
    decreases items.len() - k,
{
    if k < items.len() {
        assert(items.take(k + 1).drop_last() =~= items.take(k));
        lemma_ints_prefix(items, k + 1);
    } else {
        assert(items.take(k) =~= items);
    }
}

/// An array of strings under `key`: the declared element type must be
/// string (8) even when the array is empty.
pub open spec fn spec_str_array(kvs: KvSpec, key: Seq<char>) -> Result<Seq<Seq<char>>, ErrKind> {
    match lookup(kvs, key) {
        None => Err(ErrKind::MissingKey { key }),
        Some(MetaSpec::Array { elem_type_id, items }) => if elem_type_id != 8 {
            Err(
                ErrKind::WrongType {
                    key,
                    want: "array of strings"@,
                    found: "array of another type"@,
                },
            )
        } else {
            match strs_of(items) {
                Ok(s) => Ok(s),
                Err(bad) => Err(wrong_type(key, "array of strings"@, bad)),
            }
        },
        Some(other) => Err(wrong_type(key, "array"@, other)),
    }
}

/// An array of i32 under `key`: the declared element type must be i32
/// (5) even when the array is empty.
pub open spec fn spec_i32_array(kvs: KvSpec, key: Seq<char>) -> Result<Seq<i32>, ErrKind> {
    match lookup(kvs, key) {
        None => Err(ErrKind::MissingKey { key }),
        Some(MetaSpec::Array { elem_type_id, items }) => if elem_type_id != 5 {
            Err(
                ErrKind::WrongType {
                    key,
                    want: "array of i32"@,
                    found: "array of another type"@,
                },
            )
        } else {
            match ints_of(items) {
                Ok(s) => Ok(s),
                Err(bad) => Err(wrong_type(key, "array of i32"@, bad)),
            }
        },
        Some(other) => Err(wrong_type(key, "array"@, other)),
    }
}

/// The array of strings under `key`.
pub fn str_array(c: &Container, key: &'static str) -> (r: Result<Vec<String>, LoaderError>)
    ensures
        match spec_str_array(c.metadata@, key@) {
            Ok(s) => r matches Ok(v) && views(v@) == s,
            Err(e) => r matches Err(x) && x@ == e,
        },
{
    match c.metadata.get(key) {
        None => Err(LoaderError::MissingKey { key }),
        Some(MetaValue::Array { elem_type_id, items }) => {
            if *elem_type_id != 8 {
                return Err(
                    LoaderError::WrongType {
                        key: text(key),
                        want: "array of strings",
                        found: "array of another type",
                    },
                );
            }
            let ghost models = meta_models(items@);
            proof {
                lemma_meta_models(items@);
            }
            let mut out: Vec<String> = Vec::with_capacity(items.len());
            proof {
                assert(models.take(0) =~= Seq::<MetaSpec>::empty());
                assert(views(out@) =~= Seq::<Seq<char>>::empty());
            }
            let mut i: usize = 0;
            while i < items.len()
                invariant
                    i <= items@.len(),
                    models == meta_models(items@),
                    lookup(c.metadata@, key@) == Some(
                        MetaSpec::Array { elem_type_id: 8, items: models },
                    ),
                    models.len() == items@.len(),
                    forall|j: int| 0 <= j < items@.len() ==> #[trigger] models[j] == items@[j]@,
                    strs_of(models.take(i as int)) == Ok::<Seq<Seq<char>>, MetaSpec>(views(out@)),
                decreases items.len() - i,
            {
                proof {
                    assert(models.take(i + 1).drop_last() =~= models.take(i as int));
                    assert(models.take(i + 1).last() == models[i as int]);
                }
                match &items[i] {
                    MetaValue::Str(s) => {
                        let ghost before = out@;
                        out.push(s.clone());
                        proof {
                            assert(views(out@) =~= views(before).push(s@));
                        }
                    },
                    other => {
                        proof {
                            assert(models[i as int] == other@);
                            assert(strs_of(models.take(i + 1)) == Err::<Seq<Seq<char>>, MetaSpec>(
                                other@,
                            ));
                            lemma_strs_prefix(models, i + 1);
                        }
                        return Err(
                            LoaderError::WrongType {
                                key: text(key),
                                want: "array of strings",
                                found: other.kind(),
                            },
                        );
                    },
                }
                i = i + 1;
            }
            proof {
                assert(models.take(items@.len() as int) =~= models);
            }
            Ok(out)
        },
        Some(other) => Err(LoaderError::WrongType { key: text(key), want: "array", found: other.kind() }),
    }
}

/// The array of i32 under `key`.
pub fn i32_array(c: &Container, key: &'static str) -> (r: Result<Vec<i32>, LoaderError>)
    ensures
        match spec_i32_array(c.metadata@, key@) {
            Ok(s) => r matches Ok(v) && v@ == s,
            Err(e) => r matches Err(x) && x@ == e,
        },
{
    match c.metadata.get(key) {
        None => Err(LoaderError::MissingKey { key }),
        Some(MetaValue::Array { elem_type_id, items }) => {
            if *elem_type_id != 5 {
                return Err(
                    LoaderError::WrongType {
                        key: text(key),
                        want: "array of i32",
                        found: "array of another type",
                    },
                );
            }
            let ghost models = meta_models(items@);
            proof {
                lemma_meta_models(items@);
            }
            let mut out: Vec<i32> = Vec::with_capacity(items.len());
            proof {
                assert(models.take(0) =~= Seq::<MetaSpec>::empty());
                assert(out@ =~= Seq::<i32>::empty());
            }
            let mut i: usize = 0;
            while i < items.len()
                invariant
                    i <= items@.len(),
                    models == meta_models(items@),
                    lookup(c.metadata@, key@) == Some(
                        MetaSpec::Array { elem_type_id: 5, items: models },
                    ),
                    models.len() == items@.len(),
                    forall|j: int| 0 <= j < items@.len() ==> #[trigger] models[j] == items@[j]@,
                    ints_of(models.take(i as int)) == Ok::<Seq<i32>, MetaSpec>(out@),
                decreases items.len() - i,
            {
                proof {
                    assert(models.take(i + 1).drop_last() =~= models.take(i as int));
                    assert(models.take(i + 1).last() == models[i as int]);
                }
                match &items[i] {
                    MetaValue::I32(v) => {
                        out.push(*v);
                    },
                    other => {
                        proof {
                            assert(models[i as int] == other@);
                            assert(ints_of(models.take(i + 1)) == Err::<Seq<i32>, MetaSpec>(
                                other@,
                            ));
                            lemma_ints_prefix(models, i + 1);
                        }
                        return Err(
                            LoaderError::WrongType {
                                key: text(key),
                                want: "array of i32",
                                found: other.kind(),
                            },
                        );
                    },
                }
                i = i + 1;
            }
            proof {
                assert(models.take(items@.len() as int) =~= models);
            }
            Ok(out)
        },
        Some(other) => Err(LoaderError::WrongType { key: text(key), want: "array", found: other.kind() }),
    }
}

// ------------------------------------------------------ the vocabulary

/// Some token is exactly the one character with code point `code`.
pub open spec fn has_char_token(tokens: Seq<Seq<char>>, code: u32) -> bool {
    exists|i: int| 0 <= i < tokens.len() && tokens[i].len() == 1 && tokens[i][0] as u32 == code
}

/// The first id whose token repeats an earlier one.
pub open spec fn first_repeat_id(v: Seq<Seq<char>>) -> int {
    choose|j: int| is_first_repeat(v, j)
}

pub open spec fn is_first_repeat(v: Seq<Seq<char>>, j: int) -> bool {
    &&& 0 <= j < v.len()
    &&& distinct(v.take(j))
    &&& exists|i: int| 0 <= i < j && v[i] == v[j]
}

proof fn lemma_first_repeat_unique(v: Seq<Seq<char>>, j: int)
    requires
        is_first_repeat(v, j),
    ensures
        first_repeat_id(v) == j,
{
    let k = first_repeat_id(v);
    assert(is_first_repeat(v, k));
    if k < j {
        let i = choose|i: int| 0 <= i < k && v[i] == v[k];
        assert(v.take(j)[i] == v.take(j)[k]);
    } else if j < k {
        let i = choose|i: int| 0 <= i < j && v[i] == v[j];
        assert(v.take(k)[i] == v.take(k)[j]);
    }
}

/// The position of the first token_type value that names no class.
pub open spec fn first_unknown_type(ints: Seq<i32>) -> int {
    choose|k: int| is_first_unknown(ints, k)
}

pub open spec fn is_first_unknown(ints: Seq<i32>, k: int) -> bool {
    &&& 0 <= k < ints.len()
    &&& token_type_of(ints[k]) is None
    &&& forall|j: int| 0 <= j < k ==> (#[trigger] token_type_of(ints[j])) is Some
}

proof fn lemma_first_unknown_unique(ints: Seq<i32>, k: int)
    requires
        is_first_unknown(ints, k),
    ensures
        first_unknown_type(ints) == k,
{
    let m = first_unknown_type(ints);
    assert(is_first_unknown(ints, m));
    if m < k {
        assert(token_type_of(ints[m]) is Some);
    } else if k < m {
        assert(token_type_of(ints[k]) is Some);
    }
}

/// Every token_type value names a class.
pub open spec fn all_types_known(ints: Seq<i32>) -> bool {
    forall|i: int| 0 <= i < ints.len() ==> (#[trigger] token_type_of(ints[i])) is Some
}

/// The classes of the token_type values.
pub open spec fn types_of(ints: Seq<i32>) -> Seq<TokenType> {
    ints.map_values(|v: i32| token_type_of(v)->Some_0)
}

/// The two sides of a well-formed merge entry.
pub open spec fn merge_pair(m: Seq<char>) -> (Seq<char>, Seq<char>) {
    split_merge(m)->Some_0
}

/// A merge entry is exactly "left right": one space, both sides full.
pub open spec fn merge_ok(m: Seq<char>) -> bool {
    split_merge(m) is Some
}

/// Every merge is well formed and none repeats.
pub open spec fn merges_ok(ms: Seq<Seq<char>>) -> bool {
    &&& forall|k: int| 0 <= k < ms.len() ==> #[trigger] merge_ok(ms[k])
    &&& forall|k1: int, k2: int|
        0 <= k1 < k2 < ms.len() ==> merge_pair(#[trigger] ms[k1]) != merge_pair(#[trigger] ms[k2])
}

/// A merge fails if it is malformed or repeats an earlier merge.
pub open spec fn merge_fails(ms: Seq<Seq<char>>, k: int) -> bool {
    !merge_ok(ms[k]) || exists|j: int| 0 <= j < k && merge_pair(ms[j]) == merge_pair(ms[k])
}

pub open spec fn is_first_merge_failure(ms: Seq<Seq<char>>, k: int) -> bool {
    &&& 0 <= k < ms.len()
    &&& merge_fails(ms, k)
    &&& forall|j: int| 0 <= j < k ==> !#[trigger] merge_fails(ms, j)
}

/// The position of the first merge that fails.
pub open spec fn first_merge_failure(ms: Seq<Seq<char>>) -> int {
    choose|k: int| is_first_merge_failure(ms, k)
}

proof fn lemma_first_merge_failure_unique(ms: Seq<Seq<char>>, k: int)
    requires
        is_first_merge_failure(ms, k),
    ensures
        first_merge_failure(ms) == k,
{
    let m = first_merge_failure(ms);
    assert(is_first_merge_failure(ms, m));
    if m < k {
        assert(!merge_fails(ms, m));
    } else if k < m {
        assert(!merge_fails(ms, k));
    }
}

/// The refusal of the failing merge entry `m`.
pub open spec fn merge_message(m: Seq<char>) -> Seq<char> {
    if split_merge(m) is None {
        "malformed merge entry \""@ + echo_text(m) + "\""@
    } else {
        "duplicate merge entry \""@ + echo_text(m) + "\""@
    }
}

/// The refusal of an optional marker that breaks `marker_ok`.
pub open spec fn marker_message(
    tokens: Seq<Seq<char>>,
    types: Seq<TokenType>,
    template: Seq<char>,
    marker: Seq<char>,
) -> Seq<char> {
    match index_of(tokens, marker) {
        None => "chat template mentions \""@ + marker + "\" but the vocab does not"@,
        Some(p) => "optional marker "@ + dec(p as nat) + " (\""@ + marker + "\") has token_type "@
            + types[p].spec_name() + ", expected UserDefined"@,
    }
}

/// The refusal of the first optional marker, from the `k`th on, that
/// breaks `marker_ok`.
pub open spec fn marker_refusal(
    tokens: Seq<Seq<char>>,
    types: Seq<TokenType>,
    template: Seq<char>,
    k: nat,
) -> Seq<char>
    decreases 6 - k,
{
    if k >= 6 {
        Seq::empty()
    } else if !marker_ok(tokens, types, template, optional_markers()[k as int]) {
        marker_message(tokens, types, template, optional_markers()[k as int])
    } else {
        marker_refusal(tokens, types, template, k + 1)
    }
}

/// The template markers that tools and thinking modes may emit.
pub open spec fn optional_markers() -> Seq<Seq<char>> {
    seq![
        "<tool_call>"@,
        "</tool_call>"@,
        "<tool_response>"@,
        "</tool_response>"@,
        "<think>"@,
        "</think>"@,
    ]
}

/// An optional marker the template mentions must be in the vocabulary;
/// one in the vocabulary must be typed UserDefined, so the tokenizer
/// registers it atomically.
pub open spec fn marker_ok(
    tokens: Seq<Seq<char>>,
    types: Seq<TokenType>,
    template: Seq<char>,
    marker: Seq<char>,
) -> bool {
    &&& find_from(encode_utf8(template), encode_utf8(marker), 0) is Some ==> index_of(
        tokens,
        marker,
    ) is Some
    &&& index_of(tokens, marker) matches Some(p) ==> types[p] == TokenType::UserDefined
}

pub open spec fn markers_ok(tokens: Seq<Seq<char>>, types: Seq<TokenType>, template: Seq<char>) -> bool {
    forall|k: int|
        0 <= k < optional_markers().len() ==> #[trigger] marker_ok(
            tokens,
            types,
            template,
            optional_markers()[k],
        )
}

/// The stop set: eos, plus `<|endoftext|>` when the vocabulary has it as
/// another token.
pub open spec fn stop_set(eos: u32, endoftext: Option<int>) -> Seq<u32> {
    match endoftext {
        Some(e) => if e == eos {
            seq![eos]
        } else {
            seq![eos, e as u32]
        },
        None => seq![eos],
    }
}

/// The tokenizer data the metadata describes, after every check of the
/// first pass but the render smoke test.
pub open spec fn spec_vocab(kvs: KvSpec, pre: Seq<char>, eos: u32, template: Seq<char>) -> Result<
    TokenizerSpec,
    ErrKind,
> {
    match spec_str_array(kvs, "tokenizer.ggml.tokens"@) {
        Err(e) => Err(e),
        Ok(tokens) => if eos >= tokens.len() {
            Err(
                ErrKind::Structure {
                    reason: "eos_token_id "@ + dec(eos as nat) + " is outside the vocab of "@ + dec(
                        tokens.len(),
                    ),
                },
            )
        } else if !distinct(tokens) {
            Err(
                ErrKind::Structure {
                    reason: "duplicate token at id "@ + dec(first_repeat_id(tokens) as nat),
                },
            )
        } else {
            match spec_i32_array(kvs, "tokenizer.ggml.token_type"@) {
                Err(e) => Err(e),
                Ok(ints) => if ints.len() != tokens.len() {
                    Err(
                        ErrKind::Structure {
                            reason: "token_type has "@ + dec(ints.len()) + " entries, tokens has "@
                                + dec(tokens.len()),
                        },
                    )
                } else if !all_types_known(ints) {
                    Err(
                        ErrKind::Structure {
                            reason: crate::loader::yamf::token_type_refusal(
                                ints[first_unknown_type(ints)],
                            ),
                        },
                    )
                } else {
                    let types = types_of(ints);
                    match spec_str_array(kvs, "tokenizer.ggml.merges"@) {
                        Err(e) => Err(e),
                        Ok(ms) => if !merges_ok(ms) {
                            Err(
                                ErrKind::Structure {
                                    reason: merge_message(ms[first_merge_failure(ms)]),
                                },
                            )
                        } else if !markers_ok(tokens, types, template) {
                            Err(
                                ErrKind::Structure {
                                    reason: marker_refusal(tokens, types, template, 0),
                                },
                            )
                        } else {
                            Ok(
                                TokenizerSpec {
                                    tokens,
                                    merges: ms.map_values(|m: Seq<char>| merge_pair(m)),
                                    token_types: types,
                                    pre,
                                    stop_token_ids: stop_set(eos, index_of(tokens, "<|endoftext|>"@)),
                                },
                            )
                        },
                    }
                },
            }
        },
    }
}

/// At a merge that fails after merges that all passed and differ, the
/// first failure is that merge.
proof fn lemma_merge_failure_at(ms: Seq<Seq<char>>, i: int)
    requires
        0 <= i < ms.len(),
        merge_fails(ms, i),
        forall|k: int| 0 <= k < i ==> #[trigger] merge_ok(ms[k]),
        forall|k1: int, k2: int|
            0 <= k1 < k2 < i ==> merge_pair(#[trigger] ms[k1]) != merge_pair(#[trigger] ms[k2]),
    ensures
        first_merge_failure(ms) == i,
{
    assert forall|j: int| 0 <= j < i implies !#[trigger] merge_fails(ms, j) by {
        assert(merge_ok(ms[j]));
        if exists|j2: int| 0 <= j2 < j && merge_pair(ms[j2]) == merge_pair(ms[j]) {
            let j2 = choose|j2: int| 0 <= j2 < j && merge_pair(ms[j2]) == merge_pair(ms[j]);
            assert(merge_pair(ms[j2]) != merge_pair(ms[j]));
        }
    }
    lemma_first_merge_failure_unique(ms, i);
}

/// Check every merge entry's form and split it; an entry seen before
/// (the same two sides) refuses.
fn check_merges(ms: &Vec<String>) -> (r: Result<Vec<(String, String)>, LoaderError>)
    ensures
        r is Ok <==> merges_ok(views(ms@)),
        r matches Ok(v) ==> pair_views(v@) == views(ms@).map_values(|m: Seq<char>| merge_pair(m)),
        r matches Err(e) ==> e@ == (ErrKind::Structure {
            reason: merge_message(views(ms@)[first_merge_failure(views(ms@))]),
        }),
{
    let ghost wm = views(ms@);
    let mut seen = StringHashSet::new();
    let mut out: Vec<(String, String)> = Vec::with_capacity(ms.len());
    let mut i: usize = 0;
    while i < ms.len()
        invariant
            wm == views(ms@),
            i <= wm.len(),
            forall|k: int| 0 <= k < i ==> #[trigger] merge_ok(wm[k]),
            forall|k1: int, k2: int|
                0 <= k1 < k2 < i ==> merge_pair(#[trigger] wm[k1]) != merge_pair(#[trigger] wm[k2]),
            pair_views(out@) == wm.take(i as int).map_values(|m: Seq<char>| merge_pair(m)),
            forall|x: Seq<char>|
                seen@.contains(x) <==> exists|k: int| 0 <= k < i && x == #[trigger] wm[k],
        decreases ms.len() - i,
    {
        let m = ms[i].as_str();
        proof {
            assert(wm[i as int] == m@);
        }
        let (a, b) = match split_merge_entry(m) {
            Some(p) => p,
            None => {
                proof {
                    lemma_merge_failure_at(wm, i as int);
                }
                let mut reason = text("malformed merge entry \"");
                let shown = echo(m);
                push_str(&mut reason, shown.as_str());
                push_str(&mut reason, "\"");
                return Err(LoaderError::Structure { reason });
            },
        };
        let ghost old_seen = seen@;
        if !seen.insert(text(m)) {
            proof {
                let k = choose|k: int| 0 <= k < i && m@ == #[trigger] wm[k];
                assert(merge_pair(wm[k]) == merge_pair(wm[i as int]));
                assert(merge_fails(wm, i as int));
                lemma_merge_failure_at(wm, i as int);
            }
            let mut reason = text("duplicate merge entry \"");
            let shown = echo(m);
            push_str(&mut reason, shown.as_str());
            push_str(&mut reason, "\"");
            return Err(LoaderError::Structure { reason });
        }
        proof {
            assert(merge_pair(wm[i as int]) == (a@, b@));
            assert forall|k1: int, k2: int|
                0 <= k1 < k2 < i + 1 implies merge_pair(#[trigger] wm[k1]) != merge_pair(
                #[trigger] wm[k2],
            ) by {
                if k2 == i && merge_pair(wm[k1]) == merge_pair(wm[k2]) {
                    assert(merge_ok(wm[k1]));
                    crate::loader::vocab::lemma_split_merge_joins(wm[k1]);
                    crate::loader::vocab::lemma_split_merge_joins(wm[k2]);
                    assert(wm[k1] =~= wm[k2]);
                    assert(old_seen.contains(wm[k2]));
                }
            }
        }
        let ghost before = out@;
        out.push((a, b));
        proof {
            assert(wm.take(i + 1) =~= wm.take(i as int).push(wm[i as int]));
            assert(pair_views(out@) =~= pair_views(before).push((a@, b@)));
            assert(wm.take(i + 1).map_values(|m: Seq<char>| merge_pair(m)) =~= wm.take(
                i as int,
            ).map_values(|m: Seq<char>| merge_pair(m)).push(merge_pair(wm[i as int])));
            assert forall|x: Seq<char>|
                seen@.contains(x) <==> exists|k: int| 0 <= k < i + 1 && x == #[trigger] wm[k] by {
                if x == wm[i as int] {
                    assert(exists|k: int| 0 <= k < i + 1 && x == #[trigger] wm[k]) by {
                        assert(x == wm[i as int]);
                    }
                }
                if exists|k: int| 0 <= k < i + 1 && x == #[trigger] wm[k] {
                    let k = choose|k: int| 0 <= k < i + 1 && x == #[trigger] wm[k];
                    if k < i {
                        assert(exists|k: int| 0 <= k < i && x == #[trigger] wm[k]);
                    }
                }
            }
        }
        i = i + 1;
    }
    proof {
        assert(wm.take(wm.len() as int) =~= wm);
    }
    Ok(out)
}

/// One optional marker: mentioned means present, present means
/// UserDefined.
fn check_marker(
    tokens: &Vec<String>,
    index: &VocabIndex,
    types: &Vec<TokenType>,
    template: &str,
    marker: &'static str,
) -> (r: Result<(), LoaderError>)
    requires
        index.indexes(views(tokens@)),
        types@.len() == tokens@.len(),
    ensures
        r is Ok <==> marker_ok(views(tokens@), types@, template@, marker@),
        r matches Err(e) ==> e@ == (ErrKind::Structure {
            reason: marker_message(views(tokens@), types@, template@, marker@),
        }),
{
    let pos = index.find(tokens, marker);
    proof {
        lemma_index_of(views(tokens@), marker@);
    }
    if contains_bytes(template, marker) && pos.is_none() {
        let mut reason = text("chat template mentions \"");
        push_str(&mut reason, marker);
        push_str(&mut reason, "\" but the vocab does not");
        return Err(LoaderError::Structure { reason });
    }
    match pos {
        Some(p) => {
            if types[p] != TokenType::UserDefined {
                let mut reason = text("optional marker ");
                push_dec(&mut reason, p as u64);
                push_str(&mut reason, " (\"");
                push_str(&mut reason, marker);
                push_str(&mut reason, "\") has token_type ");
                push_str(&mut reason, types[p].name());
                push_str(&mut reason, ", expected UserDefined");
                return Err(LoaderError::Structure { reason });
            }
            Ok(())
        },
        None => Ok(()),
    }
}

proof fn lemma_strs_len(items: Seq<MetaSpec>)
    ensures
        strs_of(items) matches Ok(s) ==> s.len() == items.len(),
    decreases items.len(),
{
    if items.len() > 0 {
        lemma_strs_len(items.drop_last());
    }
}

/// The classes of the token_type values; a value outside 1..=6 refuses.
fn token_types(ints: &Vec<i32>) -> (r: Result<Vec<TokenType>, LoaderError>)
    ensures
        r is Ok <==> all_types_known(ints@),
        r matches Ok(v) ==> v@ == types_of(ints@),
        r matches Err(e) ==> e@ == (ErrKind::Structure {
            reason: crate::loader::yamf::token_type_refusal(ints@[first_unknown_type(ints@)]),
        }),
{
    let mut out: Vec<TokenType> = Vec::with_capacity(ints.len());
    let mut i: usize = 0;
    while i < ints.len()
        invariant
            i <= ints@.len(),
            out@.len() == i,
            forall|j: int| 0 <= j < i ==> (#[trigger] token_type_of(ints@[j])) is Some,
            forall|j: int| 0 <= j < i ==> out@[j] == token_type_of(ints@[j])->Some_0,
        decreases ints.len() - i,
    {
        let t = match TokenType::from_i32(ints[i]) {
            Ok(t) => t,
            Err(e) => {
                proof {
                    assert(is_first_unknown(ints@, i as int));
                    lemma_first_unknown_unique(ints@, i as int);
                }
                return Err(e);
            },
        };
        out.push(t);
        i = i + 1;
    }
    proof {
        assert(out@ =~= types_of(ints@));
    }
    Ok(out)
}

/// The tokenizer arrays, checked: a bijective vocabulary, one known class
/// per token, well-formed merges none of which repeats, and the optional
/// template markers present and typed so the tokenizer registers them.
pub fn tokenizer_data(c: &Container, pre: String, eos: u32, template: &ChatTemplate) -> (r: Result<
    TokenizerData,
    LoaderError,
>)
    requires
        spec_vocab_size(c.metadata@) is Ok,
    ensures
        match spec_vocab(c.metadata@, pre@, eos, template.spec_source()) {
            Ok(t) => r matches Ok(d) && d@ == t,
            Err(e) => r matches Err(x) && x@ == e,
        },
{
    let tokens = str_array(c, "tokenizer.ggml.tokens")?;
    let ghost wt = views(tokens@);
    proof {
        let items = lookup(c.metadata@, "tokenizer.ggml.tokens"@)->Some_0->Array_items;
        lemma_strs_len(items);
    }
    if eos as usize >= tokens.len() {
        let mut reason = text("eos_token_id ");
        push_dec(&mut reason, eos as u64);
        push_str(&mut reason, " is outside the vocab of ");
        push_dec(&mut reason, tokens.len() as u64);
        return Err(LoaderError::Structure { reason });
    }
    // BPE needs a bijective vocab: duplicates make ids ambiguous
    let index = VocabIndex::build(&tokens);
    match first_repeat(&tokens, &index) {
        Some(i) => {
            let mut reason = text("duplicate token at id ");
            push_dec(&mut reason, i as u64);
            proof {
                let k = choose|k: int| 0 <= k < i && tokens@[k]@ == tokens@[i as int]@;
                assert(wt[k] == wt[i as int]);
                assert(is_first_repeat(wt, i as int));
                lemma_first_repeat_unique(wt, i as int);
            }
            return Err(LoaderError::Structure { reason });
        },
        None => {},
    }
    let ints = i32_array(c, "tokenizer.ggml.token_type")?;
    if ints.len() != tokens.len() {
        let mut reason = text("token_type has ");
        push_dec(&mut reason, ints.len() as u64);
        push_str(&mut reason, " entries, tokens has ");
        push_dec(&mut reason, tokens.len() as u64);
        return Err(LoaderError::Structure { reason });
    }
    let types = token_types(&ints)?;
    let ms = str_array(c, "tokenizer.ggml.merges")?;
    let merges = check_merges(&ms)?;
    let source = template.source();
    let ghost tpl = template.spec_source();
    let r0 = check_marker(&tokens, &index, &types, source, "<tool_call>");
    let r1 = check_marker(&tokens, &index, &types, source, "</tool_call>");
    let r2 = check_marker(&tokens, &index, &types, source, "<tool_response>");
    let r3 = check_marker(&tokens, &index, &types, source, "</tool_response>");
    let r4 = check_marker(&tokens, &index, &types, source, "<think>");
    let r5 = check_marker(&tokens, &index, &types, source, "</think>");
    proof {
        reveal_with_fuel(marker_refusal, 7);
        let ms6 = optional_markers();
        assert(ms6[0] == "<tool_call>"@);
        assert(ms6[1] == "</tool_call>"@);
        assert(ms6[2] == "<tool_response>"@);
        assert(ms6[3] == "</tool_response>"@);
        assert(ms6[4] == "<think>"@);
        assert(ms6[5] == "</think>"@);
        if r0.is_ok() && r1.is_ok() && r2.is_ok() && r3.is_ok() && r4.is_ok() && r5.is_ok() {
            assert forall|k: int| 0 <= k < ms6.len() implies #[trigger] marker_ok(
                wt,
                types@,
                tpl,
                ms6[k],
            ) by {
                if k == 0 {
                } else if k == 1 {
                } else if k == 2 {
                } else if k == 3 {
                } else if k == 4 {
                } else {
                }
            }
        }
    }
    r0?;
    r1?;
    r2?;
    r3?;
    r4?;
    r5?;
    // the metadata under-reports stopping: eos, plus <|endoftext|> when
    // the vocabulary has it, looked up by string
    let endoftext = index.find(&tokens, "<|endoftext|>");
    let mut stop_token_ids: Vec<u32> = Vec::new();
    stop_token_ids.push(eos);
    match endoftext {
        Some(e) => {
            if e != eos as usize {
                stop_token_ids.push(e as u32);
            }
        },
        None => {},
    }
    proof {
        assert(stop_token_ids@ =~= stop_set(eos, index_of(wt, "<|endoftext|>"@)));
    }
    Ok(TokenizerData { tokens, merges, token_types: types, pre, stop_token_ids })
}

// --------------------------------------------------------- smoke test

/// The user-turn nonce of the render smoke test.
pub open spec fn user_nonce() -> Seq<char> {
    "nucleon_smoke_user_9c31f2"@
}

/// The assistant-turn nonce of the render smoke test.
pub open spec fn assistant_nonce() -> Seq<char> {
    "nucleon_smoke_assistant_44a7e0"@
}

/// The render smoke test: a template that literalizes a nonce clashes;
/// otherwise the two-turn conversation must render.
pub open spec fn spec_smoke(template: Seq<char>) -> Result<(), ErrKind> {
    if find_from(encode_utf8(template), encode_utf8(user_nonce()), 0) is Some || find_from(
        encode_utf8(template),
        encode_utf8(assistant_nonce()),
        0,
    ) is Some {
        Err(
            ErrKind::Template {
                reason: "chat template contains a smoke-test nonce literally; nonce clash"@,
            },
        )
    } else {
        match chat_render(template, smoke_turns(user_nonce(), assistant_nonce()), true, false) {
            Err(e) => Err(ErrKind::Template { reason: "render smoke test failed: "@ + e }),
            Ok(_) => Ok(()),
        }
    }
}

/// Render the smoke conversation. Two distinct nonces, so a template
/// that hardcodes canary text is caught before it renders.
pub fn check_smoke(template: &ChatTemplate) -> (r: Result<(), LoaderError>)
    ensures
        match spec_smoke(template.spec_source()) {
            Ok(_) => r is Ok,
            Err(e) => r matches Err(x) && x@ == e,
        },
{
    let user = "nucleon_smoke_user_9c31f2";
    let assistant = "nucleon_smoke_assistant_44a7e0";
    let source = template.source();
    if contains_bytes(source, user) || contains_bytes(source, assistant) {
        return Err(
            LoaderError::Template {
                reason: text("chat template contains a smoke-test nonce literally; nonce clash"),
            },
        );
    }
    match template.render_smoke(user, assistant) {
        Ok(_) => Ok(()),
        Err(e) => {
            let mut reason = text("render smoke test failed: ");
            push_str(&mut reason, e.as_str());
            Err(LoaderError::Template { reason })
        },
    }
}

} // verus!
