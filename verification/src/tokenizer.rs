//! The tokenizer: text to ids and back, over the HF `tokenizers` crate.
//!
//! `from_yamf` builds the HF tokenizer from the loader's border bundle:
//! a byte-level BPE model over the vocabulary and merges, the NFC
//! normalizer, the qwen2 pre-tokenizer split followed by the byte-level
//! stage, the byte-level decoder, and every Control, UserDefined and
//! Unknown entry registered as an added token (matched whole before BPE
//! sees the text). Yamf's fields are public, so a hand-built bundle can
//! skip the loader; `from_yamf` re-validates its own border first and
//! refuses rather than build a silently corrupting tokenizer.

use tokenizers::models::bpe::BpeBuilder;
use tokenizers::normalizers::unicode::NFC;
use tokenizers::pre_tokenizers::byte_level::ByteLevel;
use tokenizers::pre_tokenizers::sequence::Sequence;
use tokenizers::pre_tokenizers::split::{Split, SplitPattern};
use tokenizers::Tokenizer as HfTokenizer;
use tokenizers::{AddedToken, SplitDelimiterBehavior};
use std::collections::HashSet;
use vstd::prelude::*;
use vstd::string::*;
use vstd::utf8::encode_utf8;

use crate::loader::index::{count_distinct, first_repeat, VocabIndex};
use crate::loader::tokens::has_char_token;
use crate::loader::vocab::{byte_code, byte_level_code, distinct, index_of, lemma_byte_code_injective, lemma_index_of, views};
use crate::loader::yamf::{pair_views, TokenType, TokenizerData, TokenizerSpec, Yamf};
use crate::text::{dec, head, head_text, push_dec, push_str, str_eq, text};

verus! {

broadcast use vstd::std_specs::hash::group_hash_axioms;

#[verifier::external_type_specification]
#[verifier::external_body]
pub struct ExHfTokenizer(HfTokenizer);

/// The qwen2 pre-tokenizer regex (Qwen's tokenizer.json and llama.cpp's
/// QWEN2 pre-type agree on it).
pub open spec fn qwen2_pattern() -> Seq<char> {
    "(?i:'s|'t|'re|'ve|'m|'ll|'d)|[^\\r\\n\\p{L}\\p{N}]?\\p{L}+|\\p{N}| ?[^\\s\\p{L}\\p{N}]+[\\r\\n]*|\\s*[\\r\\n]+|\\s+(?!\\S)|\\s+"@
}

/// The qwen2 pre-tokenizer regex, as text.
fn qwen2_pre() -> (r: &'static str)
    ensures
        r@ == qwen2_pattern(),
{
    "(?i:'s|'t|'re|'ve|'m|'ll|'d)|[^\\r\\n\\p{L}\\p{N}]?\\p{L}+|\\p{N}| ?[^\\s\\p{L}\\p{N}]+[\\r\\n]*|\\s*[\\r\\n]+|\\s+(?!\\S)|\\s+"
}

/// Encode refuses inputs past this many bytes: fancy-regex's backtrack
/// limit trips silently at about 1M whitespace characters in one segment
/// and the whole input becomes one unsplit piece. 512 KiB stays far under
/// that while dwarfing any real prompt.
pub const MAX_ENCODE_BYTES: usize = 524_288;

// ------------------------------------------------------------- errors

/// The three ways the tokenizer can fail.
#[derive(Debug)]
pub enum TokenizerError {
    /// `from_yamf` could not assemble the tokenizer.
    Build { reason: String },
    /// `encode` failed.
    Encode { reason: String },
    /// `decode` or a stream step failed.
    Decode { reason: String },
}

impl TokenizerError {
    /// A build failure with this reason.
    pub fn build(reason: &str) -> (e: TokenizerError)
        ensures
            e is Build && e->Build_reason@ == reason@,
    {
        TokenizerError::Build { reason: text(reason) }
    }

    /// An encode failure with this reason.
    pub fn encode(reason: &str) -> (e: TokenizerError)
        ensures
            e is Encode && e->Encode_reason@ == reason@,
    {
        TokenizerError::Encode { reason: text(reason) }
    }

    /// A decode failure with this reason.
    pub fn decode(reason: &str) -> (e: TokenizerError)
        ensures
            e is Decode && e->Decode_reason@ == reason@,
    {
        TokenizerError::Decode { reason: text(reason) }
    }

    /// The message: the failed operation, then the reason.
    pub open spec fn message(&self) -> Seq<char> {
        match self {
            TokenizerError::Build { reason } => "tokenizer build failed: "@ + reason@,
            TokenizerError::Encode { reason } => "encode failed: "@ + reason@,
            TokenizerError::Decode { reason } => "decode failed: "@ + reason@,
        }
    }

    /// The human-readable message.
    pub fn to_string(&self) -> (r: String)
        ensures
            r@ == self.message(),
    {
        let mut out = String::new();
        match self {
            TokenizerError::Build { reason } => {
                push_str(&mut out, "tokenizer build failed: ");
                push_str(&mut out, reason.as_str());
            },
            TokenizerError::Encode { reason } => {
                push_str(&mut out, "encode failed: ");
                push_str(&mut out, reason.as_str());
            },
            TokenizerError::Decode { reason } => {
                push_str(&mut out, "decode failed: ");
                push_str(&mut out, reason.as_str());
            },
        }
        out
    }
}

// ----------------------------------------------------------- checks

/// Some token is exactly the character `code` and is Normal-typed.
pub open spec fn has_normal_char_token(tokens: Seq<Seq<char>>, types: Seq<TokenType>, code: u32) -> bool {
    exists|i: int|
        0 <= i < tokens.len() && tokens[i].len() == 1 && tokens[i][0] as u32 == code && types[i]
            == TokenType::Normal
}

/// `piece` is a vocabulary entry typed Normal.
pub open spec fn normal_entry(tokens: Seq<Seq<char>>, types: Seq<TokenType>, piece: Seq<char>) -> bool {
    match index_of(tokens, piece) {
        Some(i) => types[i] == TokenType::Normal,
        None => false,
    }
}

/// What `from_yamf` checks at its own border before building: ids fit
/// u32, parallel arrays, distinct tokens, every byte-level alphabet entry
/// present and Normal, every merge's operands and product present and
/// Normal, and no merge twice.
pub open spec fn border_ok(t: TokenizerSpec) -> bool {
    &&& t.tokens.len() <= u32::MAX
    &&& t.tokens.len() == t.token_types.len()
    &&& distinct(t.tokens)
    &&& forall|b: u8| #[trigger] has_normal_char_token(t.tokens, t.token_types, byte_code(b))
    &&& forall|k: int|
        0 <= k < t.merges.len() ==> {
            let m = #[trigger] t.merges[k];
            &&& normal_entry(t.tokens, t.token_types, m.0)
            &&& normal_entry(t.tokens, t.token_types, m.1)
            &&& normal_entry(t.tokens, t.token_types, m.0 + m.1)
        }
    &&& distinct(t.merges)
}

/// Everything `from_yamf` asks of the data: the border checks, and a
/// pre-tokenizer id this build has a regex for.
pub open spec fn buildable(t: TokenizerSpec) -> bool {
    &&& border_ok(t)
    &&& t.pre == "qwen2"@
}

/// The byte-level alphabet entries, and every merge's operands and
/// product, are typed Normal.
pub open spec fn normal_typed(t: TokenizerSpec) -> bool {
    &&& forall|b: u8| #[trigger] has_normal_char_token(t.tokens, t.token_types, byte_code(b))
    &&& forall|k: int|
        0 <= k < t.merges.len() ==> {
            let m = #[trigger] t.merges[k];
            &&& normal_entry(t.tokens, t.token_types, m.0)
            &&& normal_entry(t.tokens, t.token_types, m.1)
            &&& normal_entry(t.tokens, t.token_types, m.0 + m.1)
        }
}

/// What the loader hands over, the tokenizer's border accepts exactly
/// when the byte-level alphabet entries and every merge's operands and
/// product are present and typed Normal: the loader checks neither, and
/// they are the only reason left for `from_yamf` to refuse a loaded bundle
/// before building.
pub proof fn lemma_loaded_tokenizer_builds(t: TokenizerSpec)
    requires
        crate::loader::yamf::tokenizer_handed_over(t),
    ensures
        buildable(t) <==> normal_typed(t),
{
}

/// How a byte-level alphabet character prints in a refusal (Rust's
/// `{:?}` of a printable char: quoted, with `'` and `\\` escaped).
pub open spec fn alphabet_char_debug(code: u32) -> Seq<char> {
    seq!['\''] + (if code == 0x27 {
        seq!['\\', '\'']
    } else if code == 0x5C {
        seq!['\\', '\\']
    } else {
        seq![code as char]
    }) + seq!['\'']
}

fn push_alphabet_char_debug(out: &mut String, code: u32)
    requires
        code < 0x800,
    ensures
        final(out)@ == old(out)@ + alphabet_char_debug(code),
{
    proof {
        reveal_strlit("'");
        reveal_strlit("\\'");
        reveal_strlit("\\\\");
    }
    push_str(out, "'");
    if code == 0x27 {
        push_str(out, "\\'");
    } else if code == 0x5C {
        push_str(out, "\\\\");
    } else {
        crate::text::push_code_char(out, code);
    }
    push_str(out, "'");
    proof {
        assert(final(out)@ =~= old(out)@ + alphabet_char_debug(code));
    }
}

/// The first byte, below `n`, whose byte-level alphabet entry is not a
/// Normal-typed token.
pub open spec fn first_bad_byte(tokens: Seq<Seq<char>>, types: Seq<TokenType>, n: int) -> Option<u8>
    decreases n,
{
    if n <= 0 {
        None
    } else {
        match first_bad_byte(tokens, types, n - 1) {
            Some(x) => Some(x),
            None => if has_normal_char_token(tokens, types, byte_code((n - 1) as u8)) {
                None
            } else {
                Some((n - 1) as u8)
            },
        }
    }
}

proof fn lemma_first_bad_byte(tokens: Seq<Seq<char>>, types: Seq<TokenType>, n: int)
    requires
        0 <= n <= 256,
    ensures
        first_bad_byte(tokens, types, n) is None <==> forall|c: u8|
            c < n ==> #[trigger] has_normal_char_token(tokens, types, byte_code(c)),
        first_bad_byte(tokens, types, n) matches Some(x) ==> x < n && !has_normal_char_token(
            tokens,
            types,
            byte_code(x),
        ),
    decreases n,
{
    if n > 0 {
        lemma_first_bad_byte(tokens, types, n - 1);
        let last = (n - 1) as u8;
        assert(last as int == n - 1);
        if first_bad_byte(tokens, types, n - 1) is None && has_normal_char_token(
            tokens,
            types,
            byte_code(last),
        ) {
            assert forall|c: u8| c < n implies #[trigger] has_normal_char_token(
                tokens,
                types,
                byte_code(c),
            ) by {
                if c < n - 1 {
                } else {
                    assert(c == last);
                }
            }
        }
    }
}

proof fn lemma_first_bad_byte_stays(tokens: Seq<Seq<char>>, types: Seq<TokenType>, n: int, m: int)
    requires
        0 <= n <= m,
        first_bad_byte(tokens, types, n) is Some,
    ensures
        first_bad_byte(tokens, types, m) == first_bad_byte(tokens, types, n),
    decreases m - n,
{
    if n < m {
        lemma_first_bad_byte_stays(tokens, types, n, m - 1);
    }
}

/// The refusal of byte `b`'s alphabet entry: absent, or present but not
/// Normal-typed.
pub open spec fn alphabet_refusal(tokens: Seq<Seq<char>>, b: u8) -> Seq<char> {
    let code = byte_code(b);
    if has_char_token(tokens, code) {
        "byte-level alphabet entry for byte 0x"@ + crate::text::hex2(b, true) + " (char "@
            + alphabet_char_debug(code) + ") is not Normal-typed"@
    } else {
        "byte-level alphabet incomplete: byte 0x"@ + crate::text::hex2(b, true) + " (char "@
            + alphabet_char_debug(code) + ") has no vocab entry"@
    }
}

/// Whether the alphabet is present and Normal-typed.
fn check_alphabet_normal(tokens: &Vec<String>, types: &Vec<TokenType>) -> (r: Result<(), TokenizerError>)
    requires
        tokens@.len() == types@.len(),
    ensures
        r is Ok <==> forall|b: u8| #[trigger] has_normal_char_token(views(tokens@), types@, byte_code(b)),
        r matches Err(e) ==> first_bad_byte(views(tokens@), types@, 256) matches Some(b)
            && e matches TokenizerError::Build { reason } && reason@ == alphabet_refusal(
            views(tokens@),
            b,
        ),
{
    let ghost w = views(tokens@);
    let mut normal: Vec<bool> = Vec::new();
    while normal.len() < 0x144
        invariant
            normal@.len() <= 0x144,
            forall|k: int| 0 <= k < normal@.len() ==> !normal@[k],
        decreases 0x144 - normal@.len(),
    {
        normal.push(false);
    }
    let mut i: usize = 0;
    while i < tokens.len()
        invariant
            w == views(tokens@),
            tokens@.len() == types@.len(),
            i <= tokens@.len(),
            normal@.len() == 0x144,
            forall|k: int|
                0 <= k < 0x144 ==> (normal@[k] <==> exists|j: int|
                    0 <= j < i && w[j].len() == 1 && w[j][0] as u32 == k && types@[j]
                        == TokenType::Normal),
        decreases tokens.len() - i,
    {
        let t = tokens[i].as_str();
        proof {
            assert(w[i as int] == t@);
        }
        if t.unicode_len() == 1 && types[i] == TokenType::Normal {
            let code = t.get_char(0) as u32;
            if code < 0x144 {
                normal.set(code as usize, true);
            }
        }
        proof {
            assert forall|k: int| 0 <= k < 0x144 implies (normal@[k] <==> exists|j: int|
                0 <= j < i + 1 && w[j].len() == 1 && w[j][0] as u32 == k && types@[j]
                    == TokenType::Normal) by {
                if normal@[k] && !(exists|j: int|
                    0 <= j < i && w[j].len() == 1 && w[j][0] as u32 == k && types@[j]
                        == TokenType::Normal) {
                    assert(w[i as int].len() == 1 && w[i as int][0] as u32 == k);
                }
            }
        }
        i = i + 1;
    }
    let ghost normal_facts = normal@;
    let mut present: Vec<bool> = Vec::new();
    while present.len() < 0x144
        invariant
            present@.len() <= 0x144,
            forall|k: int| 0 <= k < present@.len() ==> !present@[k],
        decreases 0x144 - present@.len(),
    {
        present.push(false);
    }
    let mut i: usize = 0;
    while i < tokens.len()
        invariant
            w == views(tokens@),
            i <= tokens@.len(),
            present@.len() == 0x144,
            normal@ == normal_facts,
            forall|k: int|
                0 <= k < 0x144 ==> (present@[k] <==> exists|j: int|
                    0 <= j < i && w[j].len() == 1 && w[j][0] as u32 == k),
        decreases tokens.len() - i,
    {
        let t = tokens[i].as_str();
        proof {
            assert(w[i as int] == t@);
        }
        if t.unicode_len() == 1 {
            let code = t.get_char(0) as u32;
            if code < 0x144 {
                present.set(code as usize, true);
            }
        }
        proof {
            assert forall|k: int| 0 <= k < 0x144 implies (present@[k] <==> exists|j: int|
                0 <= j < i + 1 && w[j].len() == 1 && w[j][0] as u32 == k) by {
                if present@[k] && !(exists|j: int|
                    0 <= j < i && w[j].len() == 1 && w[j][0] as u32 == k) {
                    assert(w[i as int].len() == 1 && w[i as int][0] as u32 == k);
                }
            }
        }
        i = i + 1;
    }
    let mut b: u16 = 0;
    while b < 256
        invariant
            w == views(tokens@),
            normal@.len() == 0x144,
            present@.len() == 0x144,
            forall|k: int|
                0 <= k < 0x144 ==> (normal@[k] <==> exists|j: int|
                    0 <= j < tokens@.len() && w[j].len() == 1 && w[j][0] as u32 == k && types@[j]
                        == TokenType::Normal),
            forall|k: int|
                0 <= k < 0x144 ==> (present@[k] <==> exists|j: int|
                    0 <= j < tokens@.len() && w[j].len() == 1 && w[j][0] as u32 == k),
            b <= 256,
            forall|c: u8| c < b ==> #[trigger] has_normal_char_token(w, types@, byte_code(c)),
        decreases 256 - b,
    {
        let code = byte_level_code(b as u8);
        proof {
            lemma_byte_code_injective(b as u8, b as u8);
        }
        if !normal[code as usize] {
            proof {
                assert(!has_normal_char_token(w, types@, byte_code(b as u8)));
            }
            let is_present = present[code as usize];
            proof {
                assert(is_present == has_char_token(w, byte_code(b as u8)));
                lemma_first_bad_byte(w, types@, b as int);
                assert(first_bad_byte(w, types@, b as int) is None);
                assert(first_bad_byte(w, types@, b + 1) == Some(b as u8));
                lemma_first_bad_byte_stays(w, types@, b + 1, 256);
            }
            let mut reason = if is_present {
                text("byte-level alphabet entry for byte 0x")
            } else {
                text("byte-level alphabet incomplete: byte 0x")
            };
            crate::text::push_hex2(&mut reason, b as u8, true);
            push_str(&mut reason, " (char ");
            push_alphabet_char_debug(&mut reason, code);
            if is_present {
                push_str(&mut reason, ") is not Normal-typed");
            } else {
                push_str(&mut reason, ") has no vocab entry");
            }
            proof {
                assert(reason@ =~= alphabet_refusal(w, b as u8));
            }
            return Err(TokenizerError::Build { reason });
        }
        proof {
            assert(has_normal_char_token(w, types@, byte_code(b as u8)));
        }
        b = b + 1;
    }
    proof {
        assert forall|c: u8| #[trigger] has_normal_char_token(w, types@, byte_code(c)) by {
            assert(c < 256);
        }
    }
    Ok(())
}

/// The refusal of a merge piece: absent from the vocabulary, or present
/// but not Normal-typed; the piece is shown by its first 64 characters.
pub open spec fn part_refusal(tokens: Seq<Seq<char>>, p: Seq<char>) -> Seq<char> {
    match index_of(tokens, p) {
        None => "merge references token \""@ + head_text(p) + "\" not in the vocab"@,
        Some(_) => "merge references non-Normal token \""@ + head_text(p) + "\""@,
    }
}

/// The refusal merge `k` earns, if any: its first piece (left operand,
/// right operand, product) that is not a Normal-typed entry, else its
/// repeating an earlier merge.
pub open spec fn merge_refusal(t: TokenizerSpec, k: int) -> Option<Seq<char>> {
    let m = t.merges[k];
    if !normal_entry(t.tokens, t.token_types, m.0) {
        Some(part_refusal(t.tokens, m.0))
    } else if !normal_entry(t.tokens, t.token_types, m.1) {
        Some(part_refusal(t.tokens, m.1))
    } else if !normal_entry(t.tokens, t.token_types, m.0 + m.1) {
        Some(part_refusal(t.tokens, m.0 + m.1))
    } else if exists|j: int| 0 <= j < k && #[trigger] t.merges[j] == m {
        Some(
            "duplicate merge \""@ + head_text(m.0 + " "@ + m.1)
                + "\" would silently change its rank"@,
        )
    } else {
        None
    }
}

/// The first refusal among the first `n` merges.
pub open spec fn first_merge_refusal(t: TokenizerSpec, n: int) -> Option<Seq<char>>
    decreases n,
{
    if n <= 0 {
        None
    } else {
        match first_merge_refusal(t, n - 1) {
            Some(r) => Some(r),
            None => merge_refusal(t, n - 1),
        }
    }
}

proof fn lemma_first_merge_refusal_stays(t: TokenizerSpec, n: int, m: int)
    requires
        0 <= n <= m,
        first_merge_refusal(t, n) is Some,
    ensures
        first_merge_refusal(t, m) == first_merge_refusal(t, n),
    decreases m - n,
{
    if n < m {
        lemma_first_merge_refusal_stays(t, n, m - 1);
    }
}

/// `piece` is a Normal-typed vocabulary entry: its id, or the refusal
/// naming the piece (its first 64 characters) as absent or not Normal.
fn normal_part(tokens: &Vec<String>, types: &Vec<TokenType>, index: &VocabIndex, piece: &str) -> (r: Result<usize, String>)
    requires
        index.indexes(views(tokens@)),
        tokens@.len() == types@.len(),
    ensures
        r is Ok <==> normal_entry(views(tokens@), types@, piece@),
        r matches Ok(i) ==> index_of(views(tokens@), piece@) == Some(i as int),
        r matches Err(m) ==> m@ == part_refusal(views(tokens@), piece@),
{
    proof {
        lemma_index_of(views(tokens@), piece@);
    }
    match index.find(tokens, piece) {
        Some(i) => {
            if types[i] == TokenType::Normal {
                Ok(i)
            } else {
                let mut reason = text("merge references non-Normal token \"");
                let shown = head(piece);
                push_str(&mut reason, shown.as_str());
                push_str(&mut reason, "\"");
                proof {
                    assert(reason@ =~= part_refusal(views(tokens@), piece@));
                }
                Err(reason)
            }
        },
        None => {
            let mut reason = text("merge references token \"");
            let shown = head(piece);
            push_str(&mut reason, shown.as_str());
            push_str(&mut reason, "\" not in the vocab");
            proof {
                assert(reason@ =~= part_refusal(views(tokens@), piece@));
            }
            Err(reason)
        },
    }
}

proof fn lemma_pair_key_parts(a1: int, b1: int, a2: int, b2: int)
    requires
        0 <= a1,
        0 <= a2,
        0 <= b1 < 0x1_0000_0000,
        0 <= b2 < 0x1_0000_0000,
        a1 * 0x1_0000_0000 + b1 == a2 * 0x1_0000_0000 + b2,
    ensures
        a1 == a2,
        b1 == b2,
{
    assert(a1 == a2) by (nonlinear_arith)
        requires
            0 <= b1 < 0x1_0000_0000,
            0 <= b2 < 0x1_0000_0000,
            a1 * 0x1_0000_0000 + b1 == a2 * 0x1_0000_0000 + b2,
    ;
}

/// The id key of a merge whose operands are vocabulary entries.
pub open spec fn merge_key(tokens: Seq<Seq<char>>, m: (Seq<char>, Seq<char>)) -> u64 {
    (index_of(tokens, m.0)->Some_0 * 0x1_0000_0000 + index_of(tokens, m.1)->Some_0) as u64
}

/// Whether every merge is over Normal vocabulary entries and none repeats.
fn check_merges(data: &TokenizerData, index: &VocabIndex) -> (r: Result<(), TokenizerError>)
    requires
        index.indexes(views(data.tokens@)),
        data.tokens@.len() == data.token_types@.len(),
        data.tokens@.len() <= u32::MAX,
    ensures
        r is Ok <==> ({
            &&& forall|k: int|
                0 <= k < data@.merges.len() ==> {
                    let m = #[trigger] data@.merges[k];
                    &&& normal_entry(data@.tokens, data@.token_types, m.0)
                    &&& normal_entry(data@.tokens, data@.token_types, m.1)
                    &&& normal_entry(data@.tokens, data@.token_types, m.0 + m.1)
                }
            &&& distinct(data@.merges)
        }),
        r matches Err(e) ==> first_merge_refusal(data@, data@.merges.len() as int) matches Some(m)
            && e matches TokenizerError::Build { reason } && reason@ == m,
{
    let ghost wt = data@.tokens;
    let ghost ty = data@.token_types;
    let ghost ms = data@.merges;
    let mut seen: HashSet<u64> = HashSet::new();
    let mut i: usize = 0;
    while i < data.merges.len()
        invariant
            index.indexes(views(data.tokens@)),
            data.tokens@.len() == data.token_types@.len(),
            wt == data@.tokens,
            ty == data@.token_types,
            ms == data@.merges,
            wt.len() <= u32::MAX,
            i <= ms.len(),
            forall|k: int|
                0 <= k < i ==> {
                    let m = #[trigger] ms[k];
                    &&& normal_entry(wt, ty, m.0)
                    &&& normal_entry(wt, ty, m.1)
                    &&& normal_entry(wt, ty, m.0 + m.1)
                },
            forall|k1: int, k2: int| 0 <= k1 < k2 < i ==> #[trigger] ms[k1] != #[trigger] ms[k2],
            forall|k: int| 0 <= k < i ==> seen@.contains(#[trigger] merge_key(wt, ms[k])),
            forall|x: u64|
                seen@.contains(x) ==> exists|k: int| 0 <= k < i && x == #[trigger] merge_key(wt, ms[k]),
            first_merge_refusal(data@, i as int) is None,
        decreases data.merges.len() - i,
    {
        let a = data.merges[i].0.as_str();
        let b = data.merges[i].1.as_str();
        proof {
            assert(ms[i as int] == (a@, b@));
        }
        let mut product = text(a);
        push_str(&mut product, b);
        let ka = match normal_part(&data.tokens, &data.token_types, index, a) {
            Ok(k) => k,
            Err(reason) => {
                proof {
                    assert(merge_refusal(data@, i as int) == Some(reason@));
                    lemma_first_merge_refusal_stays(data@, i + 1, ms.len() as int);
                }
                return Err(TokenizerError::Build { reason });
            },
        };
        let kb = match normal_part(&data.tokens, &data.token_types, index, b) {
            Ok(k) => k,
            Err(reason) => {
                proof {
                    assert(merge_refusal(data@, i as int) == Some(reason@));
                    lemma_first_merge_refusal_stays(data@, i + 1, ms.len() as int);
                }
                return Err(TokenizerError::Build { reason });
            },
        };
        match normal_part(&data.tokens, &data.token_types, index, product.as_str()) {
            Ok(_) => {},
            Err(reason) => {
                proof {
                    assert(merge_refusal(data@, i as int) == Some(reason@));
                    lemma_first_merge_refusal_stays(data@, i + 1, ms.len() as int);
                }
                return Err(TokenizerError::Build { reason });
            },
        }
        proof {
            lemma_index_of(wt, a@);
            lemma_index_of(wt, b@);
        }
        let key: u64 = (ka as u64) * 0x1_0000_0000 + (kb as u64);
        proof {
            assert(key == merge_key(wt, ms[i as int]));
        }
        if !seen.insert(key) {
            proof {
                let k = choose|k: int| 0 <= k < i && key == #[trigger] merge_key(wt, ms[k]);
                let m = ms[k];
                assert(normal_entry(wt, ty, m.0) && normal_entry(wt, ty, m.1));
                lemma_index_of(wt, m.0);
                lemma_index_of(wt, m.1);
                lemma_pair_key_parts(
                    index_of(wt, m.0)->Some_0,
                    index_of(wt, m.1)->Some_0,
                    ka as int,
                    kb as int,
                );
                assert(m.0 == a@ && m.1 == b@);
                assert(ms[k] == ms[i as int]);
            }
            let mut joined = text(a);
            push_str(&mut joined, " ");
            push_str(&mut joined, b);
            let shown = head(joined.as_str());
            let mut reason = text("duplicate merge \"");
            push_str(&mut reason, shown.as_str());
            push_str(&mut reason, "\" would silently change its rank");
            proof {
                let k = choose|k: int| 0 <= k < i && key == #[trigger] merge_key(wt, ms[k]);
                assert(ms[k] == ms[i as int]);
                assert(exists|j: int| 0 <= j < i && #[trigger] data@.merges[j] == data@.merges[i as int]);
                assert(reason@ =~= "duplicate merge \""@ + head_text(a@ + " "@ + b@)
                    + "\" would silently change its rank"@);
                assert(merge_refusal(data@, i as int) == Some(reason@));
                lemma_first_merge_refusal_stays(data@, i + 1, ms.len() as int);
            }
            return Err(TokenizerError::Build { reason });
        }
        proof {
            assert forall|k1: int, k2: int| 0 <= k1 < k2 < i + 1 implies #[trigger] ms[k1]
                != #[trigger] ms[k2] by {
                if k2 == i && ms[k1] == ms[k2] {
                    assert(seen@.contains(merge_key(wt, ms[k1])));
                }
            }
            assert forall|x: u64| seen@.contains(x) implies exists|k: int|
                0 <= k < i + 1 && x == #[trigger] merge_key(wt, ms[k]) by {
                if x == key {
                    assert(x == merge_key(wt, ms[i as int]));
                }
            }
            assert(!(exists|j: int| 0 <= j < i && #[trigger] data@.merges[j] == data@.merges[i as int]));
            assert(merge_refusal(data@, i as int) is None);
        }
        i = i + 1;
    }
    Ok(())
}

/// The refusal of the first border check `t` fails, in the order the
/// checks run: the id range, parallel arrays, duplicate tokens (with the
/// count of distinct strings), the byte-level alphabet, then the merges.
pub open spec fn border_refusal(t: TokenizerSpec) -> Seq<char> {
    if t.tokens.len() > u32::MAX {
        "vocab has more tokens than u32 ids can name"@
    } else if t.tokens.len() != t.token_types.len() {
        dec(t.tokens.len()) + " tokens but "@ + dec(t.token_types.len())
            + " token_types; the arrays must be parallel"@
    } else if !distinct(t.tokens) {
        dec(t.tokens.len()) + " tokens but only "@ + dec(
            crate::loader::index::distinct_count(t.tokens, t.tokens.len() as int),
        ) + " distinct strings; duplicates shadow ids"@
    } else {
        match first_bad_byte(t.tokens, t.token_types, 256) {
            Some(b) => alphabet_refusal(t.tokens, b),
            None => match first_merge_refusal(t, t.merges.len() as int) {
                Some(m) => m,
                None => Seq::empty(),
            },
        }
    }
}

/// Every border check, with the refusal for the first that fails.
pub fn check_border(data: &TokenizerData) -> (r: Result<(), TokenizerError>)
    ensures
        r is Ok <==> border_ok(data@),
        r matches Err(e) ==> e matches TokenizerError::Build { reason } && reason@ == border_refusal(
            data@,
        ),
{
    if data.tokens.len() > u32::MAX as usize {
        return Err(TokenizerError::build("vocab has more tokens than u32 ids can name"));
    }
    // a hand-built bundle with a short token_types would leave trailing
    // specials unregistered
    if data.tokens.len() != data.token_types.len() {
        let mut reason = String::new();
        push_dec(&mut reason, data.tokens.len() as u64);
        push_str(&mut reason, " tokens but ");
        push_dec(&mut reason, data.token_types.len() as u64);
        push_str(&mut reason, " token_types; the arrays must be parallel");
        proof {
            assert(reason@ =~= border_refusal(data@));
        }
        return Err(TokenizerError::Build { reason });
    }
    // a duplicate token string would shadow the earlier id
    let index = VocabIndex::build(&data.tokens);
    if first_repeat(&data.tokens, &index).is_some() {
        let mut reason = String::new();
        push_dec(&mut reason, data.tokens.len() as u64);
        push_str(&mut reason, " tokens but only ");
        push_dec(&mut reason, count_distinct(&data.tokens, &index) as u64);
        push_str(&mut reason, " distinct strings; duplicates shadow ids");
        proof {
            assert(reason@ =~= border_refusal(data@));
        }
        return Err(TokenizerError::Build { reason });
    }
    // BPE here has no unk token: a character missing from the vocab is
    // dropped at encode and its neighbours merge across the hole
    check_alphabet_normal(&data.tokens, &data.token_types)?;
    proof {
        lemma_first_bad_byte(data@.tokens, data@.token_types, 256);
    }
    check_merges(data, &index)?;
    Ok(())
}

// ---------------------------------------------------- the HF tokenizer

/// What an HF tokenizer has installed, as this library configures one:
/// the byte-level BPE model over `vocab` (a token's id is its index) and
/// `merges` (file order is rank) under the NFC normalizer; when `split`
/// holds a regex, the pre-tokenizer that isolates its matches and then
/// maps bytes to the byte-level alphabet (no prefix space, no offset
/// trimming, no regex of its own) together with the byte-level decoder;
/// and the registered added tokens (content, special, normalized).
pub ghost struct HfSetup {
    pub vocab: Seq<Seq<char>>,
    pub merges: Seq<(Seq<char>, Seq<char>)>,
    pub split: Option<Seq<char>>,
    pub specials: Seq<(Seq<char>, bool, bool)>,
}

/// What a tokenizer of the `tokenizers` crate has installed.
pub uninterp spec fn hf_setup(t: HfTokenizer) -> HfSetup;

/// What an HF tokenizer with this setup makes of `text` with no specials
/// added (`TokenizerImpl::encode(text, false)`): the ids, or the error's
/// text.
pub uninterp spec fn hf_encode(setup: HfSetup, text: Seq<char>) -> Result<Seq<u32>, Seq<char>>;

/// What an HF tokenizer with this setup makes of `ids`, specials kept
/// (`TokenizerImpl::decode(ids, false)`): the text, or the error's text.
pub uninterp spec fn hf_decode(setup: HfSetup, ids: Seq<u32>) -> Result<Seq<char>, Seq<char>>;

/// One added-token registration: matched whole before BPE, special only
/// for Control entries, never normalized.
#[derive(Debug, Clone, PartialEq, Eq)]
pub struct AddedEntry {
    pub content: String,
    pub special: bool,
    pub normalized: bool,
}

/// The registration of one vocabulary entry. Only Control entries are
/// special (ChatML and eos markers); UserDefined ones such as `<think>`
/// are added but not special, so a skip-specials decode can never eat
/// them; neither kind is normalized.
pub fn added_token(content: &str, ty: TokenType) -> (r: AddedEntry)
    ensures
        r.content@ == content@,
        r.special == (ty == TokenType::Control),
        !r.normalized,
{
    AddedEntry { content: text(content), special: ty == TokenType::Control, normalized: false }
}

/// Classes whose entries are registered as added tokens: llama.cpp's
/// special-token cache is Control, UserDefined and Unknown.
pub open spec fn registered_type(ty: TokenType) -> bool {
    ty == TokenType::Control || ty == TokenType::UserDefined || ty == TokenType::Unknown
}

/// The registrations for the first `n` entries, in vocabulary order.
pub open spec fn registrations(tokens: Seq<Seq<char>>, types: Seq<TokenType>, n: int) -> Seq<
    (Seq<char>, bool),
>
    decreases n,
{
    if n <= 0 {
        Seq::empty()
    } else if registered_type(types[n - 1]) {
        registrations(tokens, types, n - 1).push((tokens[n - 1], types[n - 1] == TokenType::Control))
    } else {
        registrations(tokens, types, n - 1)
    }
}

pub open spec fn entry_views(v: Seq<AddedEntry>) -> Seq<(Seq<char>, bool)> {
    v.map_values(|e: AddedEntry| (e.content@, e.special))
}

/// Every Control, UserDefined and Unknown entry, registered.
pub fn added_entries(data: &TokenizerData) -> (r: Vec<AddedEntry>)
    requires
        data.tokens@.len() == data.token_types@.len(),
    ensures
        entry_views(r@) == registrations(data@.tokens, data@.token_types, data@.tokens.len() as int),
        forall|k: int| 0 <= k < r@.len() ==> !(#[trigger] r@[k]).normalized,
{
    let ghost wt = data@.tokens;
    let mut out: Vec<AddedEntry> = Vec::new();
    let mut i: usize = 0;
    while i < data.tokens.len()
        invariant
            wt == data@.tokens,
            data.tokens@.len() == data.token_types@.len(),
            i <= wt.len(),
            entry_views(out@) == registrations(wt, data.token_types@, i as int),
            forall|k: int| 0 <= k < out@.len() ==> !(#[trigger] out@[k]).normalized,
        decreases data.tokens.len() - i,
    {
        let ty = data.token_types[i];
        if ty == TokenType::Control || ty == TokenType::UserDefined || ty == TokenType::Unknown {
            let e = added_token(data.tokens[i].as_str(), ty);
            let ghost before = out@;
            out.push(e);
            proof {
                assert(wt[i as int] == data.tokens@[i as int]@);
                assert(entry_views(out@) =~= entry_views(before).push((e.content@, e.special)));
            }
        }
        i = i + 1;
    }
    out
}

/// Every merge's operands and product are vocabulary entries.
pub open spec fn merges_closed(tokens: Seq<Seq<char>>, merges: Seq<(Seq<char>, Seq<char>)>) -> bool {
    forall|k: int|
        0 <= k < merges.len() ==> {
            let m = #[trigger] merges[k];
            &&& tokens.contains(m.0)
            &&& tokens.contains(m.1)
            &&& tokens.contains(m.0 + m.1)
        }
}

/// What `Split::new` answers for `regex` as pattern: `None` when the regex
/// compiles, else its error's text.
pub uninterp spec fn split_refusal(regex: Seq<char>) -> Option<Seq<char>>;

pub open spec fn added_views(v: Seq<AddedEntry>) -> Seq<(Seq<char>, bool, bool)> {
    v.map_values(|e: AddedEntry| (e.content@, e.special, e.normalized))
}

/// The setup of a fresh byte-level BPE tokenizer under NFC: no split yet,
/// no added tokens.
pub open spec fn bpe_setup(vocab: Seq<Seq<char>>, merges: Seq<(Seq<char>, Seq<char>)>) -> HfSetup {
    HfSetup { vocab, merges, split: None, specials: Seq::empty() }
}

/// `BpeBuilder::default().vocab_and_merges(..).build()` over the
/// vocabulary (a token's id is its index) and the merges (file order is
/// rank), put in `Tokenizer::new`, then given the NFC normalizer
/// (`with_normalizer`: decomposed input, an e plus a combining acute,
/// tokenizes like the precomposed form). The builder slices a buffer as
/// long as the longest entry by each merge's product, so every merge's
/// operands and product must be entries; then it cannot fail, and neither
/// can setting a normalizer on a tokenizer with no added tokens. The
/// contract claims that and what the tokenizer then has installed.
#[verifier::external_body]
fn bpe_tokenizer(tokens: &Vec<String>, merges: &Vec<(String, String)>) -> (r: Result<HfTokenizer, String>)
    requires
        merges_closed(views(tokens@), pair_views(merges@)),
    ensures
        r is Ok,
        hf_setup(r->Ok_0) == bpe_setup(views(tokens@), pair_views(merges@)),
{
    let vocab: tokenizers::models::bpe::Vocab = tokens.iter().enumerate().map(|(i, t)| (t.clone(), i as u32)).collect();
    let bpe = BpeBuilder::default().vocab_and_merges(vocab, merges.clone()).build().map_err(|e| e.to_string())?;
    let mut t = HfTokenizer::new(bpe);
    t.with_normalizer(Some(NFC)).map_err(|e| e.to_string())?;
    Ok(t)
}

/// The pre-tokenizer and decoder: `Split::new` with the regex as pattern
/// (each match isolated as its own piece, not inverted) then
/// `ByteLevel::new(false, false, false)` (no prefix space, the chat
/// template owns the string; no offset trimming; no regex of its own, the
/// split already ran), put in `with_pre_tokenizer` as a `Sequence`; the
/// same byte-level stage goes to `with_decoder`. The contract claims the
/// outcome is what `split_refusal` names for the regex, and what the
/// tokenizer then has installed.
#[verifier::external_body]
fn set_byte_level_pipeline(t: &mut HfTokenizer, regex: &str) -> (r: Result<(), String>)
    ensures
        match split_refusal(regex@) {
            None => r is Ok && hf_setup(*final(t)) == (HfSetup { split: Some(regex@), ..hf_setup(*old(t)) }),
            Some(m) => r matches Err(e) && e@ == m && hf_setup(*final(t)) == hf_setup(*old(t)),
        },
{
    let split = Split::new(SplitPattern::Regex(regex.to_string()), SplitDelimiterBehavior::Isolated, false).map_err(|e| e.to_string())?;
    let stage = ByteLevel::new(false, false, false);
    t.with_pre_tokenizer(Some(Sequence::new(vec![split.into(), stage.into()])));
    t.with_decoder(Some(stage));
    Ok(())
}

/// `TokenizerImpl::add_special_tokens` with one
/// `AddedToken::from(content, special).normalized(normalized)` per entry.
/// Whether it fails is decided by the matcher it builds over the added
/// tokens, walked in hash-map order, so the contract states nothing of
/// when; on success the entries are registered.
#[verifier::external_body]
fn register_specials(t: &mut HfTokenizer, entries: &Vec<AddedEntry>) -> (r: Result<(), String>)
    ensures
        r is Ok ==> hf_setup(*final(t)) == (HfSetup {
            specials: hf_setup(*old(t)).specials + added_views(entries@),
            ..hf_setup(*old(t))
        }),
{
    let added: Vec<AddedToken> = entries.iter().map(|e| AddedToken::from(e.content.clone(), e.special).normalized(e.normalized)).collect();
    t.add_special_tokens(added).map_err(|e| e.to_string())?;
    Ok(())
}

/// The setup `from_yamf` installs for tokenizer data: its vocabulary and
/// merges, the qwen2 split, and its Control, UserDefined and Unknown
/// entries registered.
pub open spec fn qwen2_setup(t: TokenizerSpec) -> HfSetup {
    HfSetup {
        vocab: t.tokens,
        merges: t.merges,
        split: Some(qwen2_pattern()),
        specials: registered(t),
    }
}

/// Whatever the data, the split every built tokenizer installs is Qwen's
/// qwen2 pre-tokenizer pattern: contractions, letters with at most one
/// leading non-letter, single digits, punctuation runs, newlines, and
/// whitespace that leaves its last space to the word after it
/// (`\s+(?!\S)`) before any trailing whitespace.
pub proof fn lemma_installed_split_is_qwen2(t: TokenizerSpec)
    ensures
        qwen2_setup(t).split == Some(
            "(?i:'s|'t|'re|'ve|'m|'ll|'d)|[^\\r\\n\\p{L}\\p{N}]?\\p{L}+|\\p{N}"@
                + "| ?[^\\s\\p{L}\\p{N}]+[\\r\\n]*|\\s*[\\r\\n]+|\\s+(?!\\S)"@ + "|\\s+"@,
        ),
{
    reveal_strlit("(?i:'s|'t|'re|'ve|'m|'ll|'d)|[^\\r\\n\\p{L}\\p{N}]?\\p{L}+|\\p{N}| ?[^\\s\\p{L}\\p{N}]+[\\r\\n]*|\\s*[\\r\\n]+|\\s+(?!\\S)|\\s+");
    reveal_strlit("(?i:'s|'t|'re|'ve|'m|'ll|'d)|[^\\r\\n\\p{L}\\p{N}]?\\p{L}+|\\p{N}");
    reveal_strlit("| ?[^\\s\\p{L}\\p{N}]+[\\r\\n]*|\\s*[\\r\\n]+|\\s+(?!\\S)");
    reveal_strlit("|\\s+");
    assert(qwen2_pattern() =~= "(?i:'s|'t|'re|'ve|'m|'ll|'d)|[^\\r\\n\\p{L}\\p{N}]?\\p{L}+|\\p{N}"@
        + "| ?[^\\s\\p{L}\\p{N}]+[\\r\\n]*|\\s*[\\r\\n]+|\\s+(?!\\S)"@ + "|\\s+"@);
}

/// The tokenizer: the HF pipeline, the stop set the loader assembled,
/// and the vocabulary size.
pub struct Tokenizer {
    inner: HfTokenizer,
    stops: Vec<u32>,
    vocab_len: usize,
    source: Ghost<TokenizerSpec>,
}

impl Tokenizer {
    #[verifier::type_invariant]
    spec fn inv(&self) -> bool {
        &&& self.stops@ == self.source@.stop_token_ids
        &&& self.vocab_len == self.source@.tokens.len()
        &&& buildable(self.source@)
        &&& hf_setup(self.inner) == qwen2_setup(self.source@)
    }

    /// The tokenizer data this tokenizer was built from.
    pub closed spec fn spec(&self) -> TokenizerSpec {
        self.source@
    }

    /// What the HF tokenizer inside has installed.
    pub closed spec fn setup(&self) -> HfSetup {
        hf_setup(self.inner)
    }

    /// The stop ids the loader assembled, verbatim.
    pub fn stop_token_ids(&self) -> (r: &[u32])
        ensures
            r@ == self.spec().stop_token_ids,
    {
        proof {
            use_type_invariant(self);
        }
        self.stops.as_slice()
    }

    /// Vocabulary size, added tokens included (they reuse vocabulary ids).
    pub fn vocab_size(&self) -> (r: usize)
        ensures
            r == self.spec().tokens.len(),
    {
        proof {
            use_type_invariant(self);
        }
        self.vocab_len
    }
}

/// `TokenizerImpl::encode(text, false)` and the encoding's ids. The
/// contract claims the outcome is what `hf_encode` names for the
/// tokenizer's setup and the text.
#[verifier::external_body]
fn hf_encode_ids(t: &HfTokenizer, text: &str) -> (r: Result<Vec<u32>, String>)
    ensures
        match hf_encode(hf_setup(*t), text@) {
            Ok(ids) => r matches Ok(v) && v@ == ids,
            Err(e) => r matches Err(x) && x@ == e,
        },
{
    match t.encode(text, false) {
        Ok(encoding) => Ok(encoding.get_ids().to_vec()),
        Err(e) => Err(e.to_string()),
    }
}

/// `TokenizerImpl::decode(ids, false)`. The contract claims the outcome
/// is what `hf_decode` names for the tokenizer's setup and the ids.
#[verifier::external_body]
fn hf_decode_ids(t: &HfTokenizer, ids: &[u32]) -> (r: Result<String, String>)
    ensures
        match hf_decode(hf_setup(*t), ids@) {
            Ok(s) => r matches Ok(x) && x@ == s,
            Err(e) => r matches Err(x) && x@ == e,
        },
{
    t.decode(ids, false).map_err(|e| e.to_string())
}

/// The refusal of a pre-tokenizer id this build has no regex for.
pub open spec fn pre_refusal(pre: Seq<char>) -> Seq<char> {
    "pre-tokenizer id \""@ + head_text(pre) + "\"; this build supports: qwen2"@
}

/// The added-token registrations of the data, as (content, special,
/// normalized); none is normalized.
pub open spec fn registered(t: TokenizerSpec) -> Seq<(Seq<char>, bool, bool)> {
    registrations(t.tokens, t.token_types, t.tokens.len() as int).map_values(
        |e: (Seq<char>, bool)| (e.0, e.1, false),
    )
}

/// Why building refuses the data, in the order the steps run: the border
/// check, the pre-tokenizer id, the split regex; `None` when only the
/// registration of the added tokens is left, which the outside crate
/// decides.
pub open spec fn build_refusal(t: TokenizerSpec) -> Option<Seq<char>> {
    if !border_ok(t) {
        Some(border_refusal(t))
    } else if t.pre != "qwen2"@ {
        Some(pre_refusal(t.pre))
    } else {
        split_refusal(qwen2_pattern())
    }
}

/// The border check leaves every merge's operands and product in the
/// vocabulary.
proof fn lemma_border_merges_closed(t: TokenizerSpec)
    requires
        border_ok(t),
    ensures
        merges_closed(t.tokens, t.merges),
{
    assert forall|k: int| 0 <= k < t.merges.len() implies {
        let m = #[trigger] t.merges[k];
        &&& t.tokens.contains(m.0)
        &&& t.tokens.contains(m.1)
        &&& t.tokens.contains(m.0 + m.1)
    } by {
        let m = t.merges[k];
        lemma_index_of(t.tokens, m.0);
        lemma_index_of(t.tokens, m.1);
        lemma_index_of(t.tokens, m.0 + m.1);
    }
}

/// Build the tokenizer from the loader's border bundle: the byte-level
/// BPE model with NFC, the qwen2 split and byte-level stages, and the
/// added tokens. Refuses (as `Build`) with the first refusal of the border
/// check, the pre-tokenizer id and the split regex; past those, the
/// registration of the added tokens decides. A built tokenizer carries the
/// bundle's tokenizer data, stop set and vocabulary size, and has the
/// qwen2 setup of that data installed.
pub fn from_yamf(y: &Yamf) -> (r: Result<Tokenizer, TokenizerError>)
    ensures
        match build_refusal(y.tokenizer@) {
            Some(m) => r matches Err(e) && e matches TokenizerError::Build { reason } && reason@ == m,
            None => r matches Ok(t) ==> t.spec() == y.tokenizer@,
        },
        r matches Ok(t) ==> buildable(y.tokenizer@) && t.spec() == y.tokenizer@ && t.setup()
            == qwen2_setup(y.tokenizer@),
        r matches Err(e) ==> e is Build,
{
    check_border(&y.tokenizer)?;
    let data = &y.tokenizer;
    proof {
        lemma_border_merges_closed(data@);
    }
    let mut inner = match bpe_tokenizer(&data.tokens, &data.merges) {
        Ok(t) => t,
        Err(reason) => {
            return Err(TokenizerError::Build { reason });
        },
    };
    // the pre id selects the regex: a regex nothing selects would be a
    // silent wrong-ids bug
    if !str_eq(data.pre.as_str(), "qwen2") {
        let mut reason = text("pre-tokenizer id \"");
        let shown = head(data.pre.as_str());
        push_str(&mut reason, shown.as_str());
        push_str(&mut reason, "\"; this build supports: qwen2");
        return Err(TokenizerError::Build { reason });
    }
    match set_byte_level_pipeline(&mut inner, qwen2_pre()) {
        Ok(()) => {},
        Err(reason) => {
            return Err(TokenizerError::Build { reason });
        },
    }
    let entries = added_entries(data);
    proof {
        assert(added_views(entries@) =~= registered(data@)) by {
            assert forall|k: int| 0 <= k < entries@.len() implies #[trigger] added_views(entries@)[k]
                == registered(data@)[k] by {
                assert(entry_views(entries@)[k] == (entries@[k].content@, entries@[k].special));
            }
        }
    }
    match register_specials(&mut inner, &entries) {
        Ok(()) => {},
        Err(reason) => {
            return Err(TokenizerError::Build { reason });
        },
    }
    proof {
        assert(Seq::<(Seq<char>, bool, bool)>::empty() + added_views(entries@) =~= registered(data@));
        assert(hf_setup(inner) == qwen2_setup(data@));
    }
    let mut stops: Vec<u32> = Vec::with_capacity(data.stop_token_ids.len());
    let mut i: usize = 0;
    while i < data.stop_token_ids.len()
        invariant
            i <= data.stop_token_ids@.len(),
            stops@ == data.stop_token_ids@.take(i as int),
        decreases data.stop_token_ids.len() - i,
    {
        stops.push(data.stop_token_ids[i]);
        proof {
            assert(data.stop_token_ids@.take(i + 1) =~= data.stop_token_ids@.take(i as int).push(
                data.stop_token_ids@[i as int],
            ));
        }
        i = i + 1;
    }
    proof {
        assert(data.stop_token_ids@.take(data.stop_token_ids@.len() as int) =~= data.stop_token_ids@);
    }
    Ok(Tokenizer { inner, stops, vocab_len: data.tokens.len(), source: Ghost(data@) })
}

/// The refusal text for an oversized input of `n` bytes.
pub open spec fn cap_message(n: nat) -> Seq<char> {
    "input is "@ + crate::text::dec(n)
        + " bytes; encode caps at 524288 (the pre-tokenizer regex misbehaves silently past ~1M chars)"@
}

impl Tokenizer {
    /// Encode text into ids, never adding specials: the chat template
    /// owns every special in the string. Added tokens match whole;
    /// everything else goes through the qwen2 split, the byte-level
    /// alphabet and BPE. Inputs past 512 KiB refuse.
    pub fn encode(&self, text: &str) -> (r: Result<Vec<u32>, TokenizerError>)
        ensures
            text.spec_bytes().len() > MAX_ENCODE_BYTES ==> (r matches Err(e) && e is Encode
                && e->Encode_reason@ == cap_message(text.spec_bytes().len())),
            text.spec_bytes().len() <= MAX_ENCODE_BYTES ==> match hf_encode(qwen2_setup(self.spec()), text@) {
                Ok(ids) => r matches Ok(v) && v@ == ids,
                Err(m) => r matches Err(e) && e is Encode && e->Encode_reason@ == m,
            },
    {
        let n = text.as_bytes().len();
        if n > MAX_ENCODE_BYTES {
            let mut reason = crate::text::text("input is ");
            push_dec(&mut reason, n as u64);
            push_str(
                &mut reason,
                " bytes; encode caps at 524288 (the pre-tokenizer regex misbehaves silently past ~1M chars)",
            );
            return Err(TokenizerError::Encode { reason });
        }
        proof {
            use_type_invariant(self);
        }
        match hf_encode_ids(&self.inner, text) {
            Ok(ids) => Ok(ids),
            Err(reason) => Err(TokenizerError::Encode { reason }),
        }
    }

    /// Decode a whole id sequence. Specials are kept, so ChatML markers
    /// survive round trips.
    pub fn decode(&self, ids: &[u32]) -> (r: Result<String, TokenizerError>)
        ensures
            match hf_decode(qwen2_setup(self.spec()), ids@) {
                Ok(s) => r matches Ok(x) && x@ == s,
                Err(m) => r matches Err(e) && e is Decode && e->Decode_reason@ == m,
            },
    {
        proof {
            use_type_invariant(self);
        }
        match hf_decode_ids(&self.inner, ids) {
            Ok(s) => Ok(s),
            Err(reason) => Err(TokenizerError::Decode { reason }),
        }
    }
}

// -------------------------------------------------------------- stream

/// Where a stream decoder stands: the ids it keeps, and `prefix`, the text
/// of the first `prefix_index` of them, already emitted.
pub ghost struct StreamState {
    pub ids: Seq<u32>,
    pub prefix: Seq<char>,
    pub prefix_index: int,
}

/// The text ends in U+FFFD, the decoder's mark for an incomplete codepoint.
pub open spec fn ends_in_replacement(s: Seq<char>) -> bool {
    s.len() > 0 && s.last() == '\u{FFFD}'
}

/// The length of the text in UTF-8 bytes.
pub open spec fn utf8_len(s: Seq<char>) -> nat {
    encode_utf8(s).len()
}

/// The refusal of a decode that no longer begins with the emitted prefix.
pub open spec fn invalid_prefix_message(id: u32, prefix: Seq<char>, string: Seq<char>) -> Seq<char> {
    "Invalid prefix encountered while decoding stream. Token ID: "@ + dec(id as nat)
        + ", Expected prefix: '"@ + prefix + "', Actual string: '"@ + string + "'"@
}

/// The start of a step: with no prefix yet and ids kept, their decode
/// becomes the prefix unless it ends in U+FFFD.
pub open spec fn stream_refresh(src: HfSetup, st: StreamState) -> Result<StreamState, Seq<char>> {
    if st.prefix.len() == 0 && st.ids.len() > 0 {
        match hf_decode(src, st.ids) {
            Err(m) => Err(m),
            Ok(p) => if ends_in_replacement(p) {
                Ok(st)
            } else {
                Ok(StreamState { prefix: p, prefix_index: st.ids.len() as int, ..st })
            },
        }
    } else {
        Ok(st)
    }
}

/// One step of the stream (the crate's `step_decode_stream` over
/// `hf_decode`): the state after it, and the chunk it emits (`None` while
/// the decode ends in U+FFFD or has not grown past the prefix), or the
/// error's text.
pub open spec fn stream_step(src: HfSetup, st: StreamState, id: u32) -> (
    StreamState,
    Result<Option<Seq<char>>, Seq<char>>,
) {
    match stream_refresh(src, st) {
        Err(m) => (st, Err(m)),
        Ok(s1) => {
            let ids = s1.ids.push(id);
            let s2 = StreamState { ids, ..s1 };
            match hf_decode(src, ids) {
                Err(m) => (s2, Err(m)),
                Ok(string) => if utf8_len(string) > utf8_len(s1.prefix) && !ends_in_replacement(
                    string,
                ) {
                    if !s1.prefix.is_prefix_of(string) {
                        (s2, Err(invalid_prefix_message(id, s1.prefix, string)))
                    } else {
                        let kept = ids.skip(s1.prefix_index);
                        match hf_decode(src, kept) {
                            Err(m) => (StreamState { ids: kept, ..s1 }, Err(m)),
                            Ok(p) => (
                                StreamState {
                                    ids: kept,
                                    prefix: p,
                                    prefix_index: ids.len() - s1.prefix_index,
                                },
                                Ok(Some(string.skip(s1.prefix.len() as int))),
                            ),
                        }
                    }
                } else {
                    (s2, Ok(None))
                },
            }
        },
    }
}

/// `tokenizers::tokenizer::step_decode_stream`: one id through the
/// crate's stream decoder over this tokenizer, specials kept, with the
/// stream's kept ids, emitted prefix and prefix index. The contract claims
/// the outcome is `stream_step` over what `hf_decode` names for the
/// tokenizer's setup: the function is those few lines over `decode`. It
/// slices the kept ids at the prefix index, so that index must be within
/// them.
#[verifier::external_body]
fn hf_stream_step(
    t: &HfTokenizer,
    id: u32,
    ids: &mut Vec<u32>,
    prefix: &mut String,
    prefix_index: &mut usize,
) -> (r: Result<Option<String>, String>)
    requires
        *old(prefix_index) <= old(ids)@.len(),
    ensures
        ({
            let (st, res) = stream_step(
                hf_setup(*t),
                StreamState { ids: old(ids)@, prefix: old(prefix)@, prefix_index: *old(prefix_index) as int },
                id,
            );
            &&& final(ids)@ == st.ids
            &&& final(prefix)@ == st.prefix
            &&& *final(prefix_index) as int == st.prefix_index
            &&& match res {
                Ok(Some(c)) => r matches Ok(Some(x)) && x@ == c,
                Ok(None) => r matches Ok(None),
                Err(m) => r matches Err(e) && e@ == m,
            }
        }),
{
    tokenizers::tokenizer::step_decode_stream(&**t, vec![id], false, ids, prefix, prefix_index).map_err(|e| e.to_string())
}

/// A prefix of a text with more UTF-8 bytes is shorter.
proof fn lemma_longer_text(prefix: Seq<char>, string: Seq<char>)
    requires
        prefix.is_prefix_of(string),
        utf8_len(string) > utf8_len(prefix),
    ensures
        prefix.len() < string.len(),
{
    if prefix.len() == string.len() {
        assert(prefix =~= string);
    }
}

/// Streaming decode for one generation: a multi-byte codepoint split
/// across two ids never prints as U+FFFD. Besides the stream's own state,
/// the ids fed since the last emitted chunk are kept, because the stream
/// has no flush: a generation that stops mid-codepoint would lose them
/// silently.
pub struct DecodeStream<'t> {
    tokenizer: &'t Tokenizer,
    ids: Vec<u32>,
    prefix: String,
    prefix_index: usize,
    pending: Vec<u32>,
}

impl<'t> DecodeStream<'t> {
    /// The ids fed since the last emitted chunk.
    pub closed spec fn pending(&self) -> Seq<u32> {
        self.pending@
    }

    /// The tokenizer the stream decodes with.
    pub closed spec fn source(&self) -> TokenizerSpec {
        self.tokenizer.spec()
    }

    /// The stream's state.
    pub closed spec fn state(&self) -> StreamState {
        StreamState { ids: self.ids@, prefix: self.prefix@, prefix_index: self.prefix_index as int }
    }

    /// The emitted prefix covers no more ids than are kept.
    pub open spec fn wf(&self) -> bool {
        0 <= self.state().prefix_index <= self.state().ids.len()
    }

    /// Feed one sampled id: `None` while bytes are buffered (or the
    /// decode has not grown past what was emitted), `Some(chunk)` when
    /// clean text is ready to print. An emitted chunk clears the pending
    /// ids; a held id joins them; an error leaves them as they were.
    pub fn step(&mut self, id: u32) -> (r: Result<Option<String>, TokenizerError>)
        requires
            old(self).wf(),
        ensures
            final(self).source() == old(self).source(),
            final(self).state() == stream_step(qwen2_setup(old(self).source()), old(self).state(), id).0,
            match stream_step(qwen2_setup(old(self).source()), old(self).state(), id).1 {
                Ok(Some(c)) => r matches Ok(Some(x)) && x@ == c && final(self).pending()
                    == Seq::<u32>::empty(),
                Ok(None) => r matches Ok(None) && final(self).pending() == old(self).pending().push(
                    id,
                ),
                Err(m) => r matches Err(e) && e is Decode && e->Decode_reason@ == m
                    && final(self).pending() == old(self).pending(),
            },
            r matches Ok(Some(x)) ==> x@.len() > 0 && !ends_in_replacement(x@),
            r is Ok ==> final(self).wf(),
    {
        proof {
            use_type_invariant(self.tokenizer);
            lemma_step_chunk(qwen2_setup(self.source()), self.state(), id);
        }
        let out = hf_stream_step(
            &self.tokenizer.inner,
            id,
            &mut self.ids,
            &mut self.prefix,
            &mut self.prefix_index,
        );
        match out {
            Ok(Some(chunk)) => {
                self.pending.clear();
                Ok(Some(chunk))
            },
            Ok(None) => {
                self.pending.push(id);
                Ok(None)
            },
            Err(reason) => Err(TokenizerError::Decode { reason }),
        }
    }

    /// Drain what the stream still holds when generation ends. A codepoint
    /// cut off by a max-token stop decodes lossily (U+FFFD): visible
    /// truncation, never silent loss. `None` when nothing was held.
    pub fn finish(self) -> (r: Result<Option<String>, TokenizerError>)
        ensures
            self.pending().len() == 0 ==> r == Ok::<Option<String>, TokenizerError>(None),
            self.pending().len() > 0 ==> match hf_decode(qwen2_setup(self.source()), self.pending()) {
                Ok(s) => if s.len() == 0 {
                    r == Ok::<Option<String>, TokenizerError>(None)
                } else {
                    r matches Ok(Some(x)) && x@ == s
                },
                Err(m) => r matches Err(e) && e is Decode && e->Decode_reason@ == m,
            },
    {
        if self.pending.len() == 0 {
            return Ok(None);
        }
        let tail = self.tokenizer.decode(self.pending.as_slice())?;
        if tail.as_str().unicode_len() == 0 {
            Ok(None)
        } else {
            Ok(Some(tail))
        }
    }
}

/// A chunk a step emits is not empty and does not end in U+FFFD, and a
/// step that succeeds keeps the emitted prefix within the kept ids.
pub proof fn lemma_step_chunk(src: HfSetup, st: StreamState, id: u32)
    requires
        0 <= st.prefix_index <= st.ids.len(),
    ensures
        stream_step(src, st, id).1 matches Ok(Some(c)) ==> c.len() > 0 && !ends_in_replacement(c),
        stream_step(src, st, id).1 is Ok ==> 0 <= stream_step(src, st, id).0.prefix_index
            <= stream_step(src, st, id).0.ids.len(),
{
    if let Ok(s1) = stream_refresh(src, st) {
        let ids = s1.ids.push(id);
        if let Ok(string) = hf_decode(src, ids) {
            if utf8_len(string) > utf8_len(s1.prefix) && !ends_in_replacement(string)
                && s1.prefix.is_prefix_of(string) {
                lemma_longer_text(s1.prefix, string);
                let c = string.skip(s1.prefix.len() as int);
                assert(c.last() == string.last());
            }
        }
    }
}

impl Tokenizer {
    /// A fresh stream decoder for one generation; specials are kept, as
    /// in `decode`.
    pub fn stream_decoder(&self) -> (r: DecodeStream<'_>)
        ensures
            r.pending() == Seq::<u32>::empty(),
            r.source() == self.spec(),
            r.state() == (StreamState { ids: Seq::empty(), prefix: Seq::empty(), prefix_index: 0 }),
            r.wf(),
    {
        let r = DecodeStream {
            tokenizer: self,
            ids: Vec::new(),
            prefix: String::new(),
            prefix_index: 0,
            pending: Vec::new(),
        };
        proof {
            assert(r.state().prefix =~= Seq::<char>::empty());
        }
        r
    }
}

} // verus!
