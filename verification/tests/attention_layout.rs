use nucleon::backend::{attention_layout, kv_row_start, q_row_start, MAX_ATTENTION_SEQ};

#[test]
fn attention_layout_accepts_gqa_shapes() {
    let l = attention_layout(&[4, 2], &[2, 3, 2], &[2, 3, 2]).unwrap();
    assert_eq!(l.n_heads, 4);
    assert_eq!(l.head_dim, 2);
    assert_eq!(l.n_kv_heads, 2);
    assert_eq!(l.seq, 3);
    assert_eq!(l.group, 2);
}

#[test]
fn attention_rows_follow_the_kv_groups() {
    let l = attention_layout(&[4, 2], &[2, 3, 2], &[2, 3, 2]).unwrap();
    assert_eq!(q_row_start(&l, 0), 0);
    assert_eq!(q_row_start(&l, 3), 6);
    // heads 0 and 1 share kv head 0, heads 2 and 3 share kv head 1
    assert_eq!(kv_row_start(&l, 1, 2), 4);
    assert_eq!(kv_row_start(&l, 2, 0), 6);
    assert_eq!(kv_row_start(&l, 3, 1), 8);
    assert_eq!(kv_row_start(&l, 3, 2) + l.head_dim, 12);
}

#[test]
fn attention_layout_refuses_each_rule_in_order() {
    assert_eq!(
        attention_layout(&[2], &[1, 1, 2], &[1, 1, 2]).unwrap_err(),
        "q must be [n_heads, head_dim]"
    );
    assert_eq!(
        attention_layout(&[2, 2], &[1, 2], &[1, 2]).unwrap_err(),
        "k must be [n_kv_heads, seq, head_dim]"
    );
    assert_eq!(
        attention_layout(&[2, 2], &[1, 1, 2], &[1, 2, 2]).unwrap_err(),
        "k and v must match"
    );
    assert_eq!(
        attention_layout(&[2, 2], &[1, 1, 3], &[1, 1, 3]).unwrap_err(),
        "k head_dim must match q"
    );
    assert_eq!(
        attention_layout(&[2, 2], &[1, 0, 2], &[1, 0, 2]).unwrap_err(),
        "attention dims must be nonzero (empty cache?)"
    );
    assert_eq!(
        attention_layout(&[2, 2], &[1, MAX_ATTENTION_SEQ + 1, 2], &[1, MAX_ATTENTION_SEQ + 1, 2])
            .unwrap_err(),
        "attention contract caps seq at 4096"
    );
    assert_eq!(
        attention_layout(&[3, 2], &[2, 1, 2], &[2, 1, 2]).unwrap_err(),
        "query heads must divide evenly over kv heads (GQA)"
    );
}

#[test]
fn attention_layout_takes_the_longest_sequence() {
    let l = attention_layout(&[1, 1], &[1, MAX_ATTENTION_SEQ, 1], &[1, MAX_ATTENTION_SEQ, 1]).unwrap();
    assert_eq!(l.seq, 4096);
}
