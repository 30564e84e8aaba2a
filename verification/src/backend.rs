//! The shape contract of the attention op, shared by every backend: which
//! shapes a single-position GQA attention accepts (and the refusal of the
//! first rule a call breaks), and where each head's query row and each
//! cached key/value row start in the flat data.

use vstd::prelude::*;

use crate::tensor::{checked_count, shape_product};

verus! {

/// The readable CPU reference backend, against which every other backend
/// is judged op by op. Its float arithmetic runs outside this library;
/// the shape rules it applies are the ones below.
pub struct CpuBackend;

/// The longest cached sequence an attention call takes.
pub const MAX_ATTENTION_SEQ: usize = 4096;

/// The dimensions an attention call runs with: q is [n_heads, head_dim],
/// k and v are [n_kv_heads, seq, head_dim], and query heads share a kv
/// head in groups of `group`.
#[derive(Debug, Clone, Copy)]
pub struct AttentionLayout {
    pub n_heads: usize,
    pub head_dim: usize,
    pub n_kv_heads: usize,
    pub seq: usize,
    pub group: usize,
}

/// The refusal of the first rule the shapes break, in the order the
/// rules are checked; `None` when the call is accepted.
pub open spec fn attention_refusal(q: Seq<usize>, k: Seq<usize>, v: Seq<usize>) -> Option<
    Seq<char>,
> {
    if q.len() != 2 {
        Some("q must be [n_heads, head_dim]"@)
    } else if k.len() != 3 {
        Some("k must be [n_kv_heads, seq, head_dim]"@)
    } else if k != v {
        Some("k and v must match"@)
    } else if k[2] != q[1] {
        Some("k head_dim must match q"@)
    } else if q[1] == 0 || k[1] == 0 || q[0] == 0 || k[0] == 0 {
        Some("attention dims must be nonzero (empty cache?)"@)
    } else if k[1] > MAX_ATTENTION_SEQ {
        Some("attention contract caps seq at 4096"@)
    } else if q[0] % k[0] != 0 {
        Some("query heads must divide evenly over kv heads (GQA)"@)
    } else {
        None
    }
}

/// A layout a backend can index with: every dimension nonzero, the query
/// heads an exact multiple of the kv heads, and both tensors' element
/// counts within `usize`.
pub open spec fn layout_wf(l: AttentionLayout) -> bool {
    &&& l.n_heads > 0 && l.head_dim > 0 && l.n_kv_heads > 0 && l.seq > 0
    &&& l.group > 0 && l.n_heads == l.group * l.n_kv_heads
    &&& l.seq <= MAX_ATTENTION_SEQ
    &&& l.n_heads * l.head_dim <= usize::MAX
    &&& l.n_kv_heads * l.seq * l.head_dim <= usize::MAX
}

fn same_dims(a: &[usize], b: &[usize]) -> (r: bool)
    ensures
        r == (a@ == b@),
{
    if a.len() != b.len() {
        return false;
    }
    let mut i: usize = 0;
    while i < a.len()
        invariant
            i <= a@.len(),
            a@.len() == b@.len(),
            forall|j: int| 0 <= j < i ==> a@[j] == b@[j],
        decreases a.len() - i,
    {
        if a[i] != b[i] {
            return false;
        }
        i = i + 1;
    }
    assert(a@ =~= b@);
    true
}

proof fn lemma_product_two(s: Seq<usize>)
    requires
        s.len() == 2,
    ensures
        shape_product(s) == s[0] * s[1],
{
    let a = s.drop_last();
    assert(a.drop_last().len() == 0);
    assert(shape_product(a.drop_last()) == 1);
    assert(a.last() == s[0]);
    assert(shape_product(a) == s[0]);
    assert(s.last() == s[1]);
}

proof fn lemma_product_three(s: Seq<usize>)
    requires
        s.len() == 3,
    ensures
        shape_product(s) == s[0] * s[1] * s[2],
{
    lemma_product_two(s.drop_last());
    assert(s.drop_last()[0] == s[0] && s.drop_last()[1] == s[1]);
    assert(s.last() == s[2]);
}

/// Grouped-query attention takes any number of query heads that the kv
/// heads divide: for q of shape [h, d] and k = v of shape [kv, s, d], the
/// call is refused exactly when a dimension is zero, the sequence passes
/// 4096, or kv does not divide h; whatever the group size h / kv.
pub proof fn lemma_attention_accepts_every_even_grouping(h: usize, d: usize, kv: usize, s: usize)
    ensures
        attention_refusal(seq![h, d], seq![kv, s, d], seq![kv, s, d]) is None <==> (h > 0 && d > 0
            && kv > 0 && s > 0 && s <= 4096 && h % kv == 0),
{
}

/// Check the shapes of an attention call: the layout when every rule
/// holds, otherwise the refusal of the first rule broken.
pub fn attention_layout(q: &[usize], k: &[usize], v: &[usize]) -> (r: Result<
    AttentionLayout,
    &'static str,
>)
    requires
        checked_count(q@) is Some,
        checked_count(k@) is Some,
    ensures
        match attention_refusal(q@, k@, v@) {
            Some(m) => r matches Err(e) && e@ == m,
            None => r matches Ok(l) && l.n_heads == q@[0] && l.head_dim == q@[1] && l.n_kv_heads
                == k@[0] && l.seq == k@[1] && l.group == q@[0] / k@[0] && layout_wf(l),
        },
{
    if q.len() != 2 {
        return Err("q must be [n_heads, head_dim]");
    }
    if k.len() != 3 {
        return Err("k must be [n_kv_heads, seq, head_dim]");
    }
    if !same_dims(k, v) {
        return Err("k and v must match");
    }
    let n_heads = q[0];
    let head_dim = q[1];
    let n_kv_heads = k[0];
    let seq = k[1];
    if k[2] != head_dim {
        return Err("k head_dim must match q");
    }
    if head_dim == 0 || seq == 0 || n_heads == 0 || n_kv_heads == 0 {
        return Err("attention dims must be nonzero (empty cache?)");
    }
    if seq > MAX_ATTENTION_SEQ {
        return Err("attention contract caps seq at 4096");
    }
    if n_heads % n_kv_heads != 0 {
        return Err("query heads must divide evenly over kv heads (GQA)");
    }
    let group = n_heads / n_kv_heads;
    proof {
        crate::tensor::lemma_checked_count_is_product(q@);
        crate::tensor::lemma_checked_count_is_product(k@);
        lemma_product_two(q@);
        lemma_product_three(k@);
        assert(n_heads == group * n_kv_heads) by (nonlinear_arith)
            requires
                n_heads % n_kv_heads == 0,
                group == n_heads / n_kv_heads,
                n_kv_heads > 0,
        ;
        assert(group > 0) by (nonlinear_arith)
            requires
                n_heads == group * n_kv_heads,
                n_heads > 0,
                n_kv_heads > 0,
                group >= 0,
        ;
    }
    Ok(AttentionLayout { n_heads, head_dim, n_kv_heads, seq, group })
}

/// Where query head `head`'s row starts in q's data.
pub fn q_row_start(l: &AttentionLayout, head: usize) -> (r: usize)
    requires
        layout_wf(*l),
        head < l.n_heads,
    ensures
        r == head * l.head_dim,
        r + l.head_dim <= l.n_heads * l.head_dim,
{
    proof {
        assert((head + 1) * l.head_dim <= l.n_heads * l.head_dim) by (nonlinear_arith)
            requires
                head < l.n_heads,
        ;
        assert(head * l.head_dim + l.head_dim == (head + 1) * l.head_dim) by (nonlinear_arith);
    }
    head * l.head_dim
}

/// Where the cached row of position `t` starts in k's (and v's) data for
/// query head `head`: its kv head is `head / group`.
pub fn kv_row_start(l: &AttentionLayout, head: usize, t: usize) -> (r: usize)
    requires
        layout_wf(*l),
        head < l.n_heads,
        t < l.seq,
    ensures
        r == ((head / l.group) * l.seq + t) * l.head_dim,
        r + l.head_dim <= l.n_kv_heads * l.seq * l.head_dim,
{
    let kv_head = head / l.group;
    let ghost n_kv = l.n_kv_heads as int;
    let ghost seq = l.seq as int;
    let ghost hd = l.head_dim as int;
    let ghost row = kv_head * seq + t;
    proof {
        assert(kv_head < n_kv) by (nonlinear_arith)
            requires
                head < l.group * n_kv,
                kv_head == head / l.group,
                l.group > 0,
        ;
        assert(row + 1 <= n_kv * seq) by (nonlinear_arith)
            requires
                kv_head < n_kv,
                t < seq,
                row == kv_head * seq + t,
        ;
        assert((row + 1) * hd <= n_kv * seq * hd) by (nonlinear_arith)
            requires
                row + 1 <= n_kv * seq,
                hd > 0,
        ;
        assert(row * hd + hd == (row + 1) * hd) by (nonlinear_arith);
        assert(row <= row * hd) by (nonlinear_arith)
            requires
                hd > 0,
                row >= 0,
        ;
        assert(kv_head * seq <= row);
    }
    let base = kv_head * l.seq + t;
    base * l.head_dim
}

} // verus!
