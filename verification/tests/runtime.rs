//! The engine and its kernels.

use tamil_query_engine::{
    alloc_token_window, demo_catalog, run_query, vector_merge_join, AstArena, Engine, EngineError,
    NodeKind, QueryResult, RuntimeScratch, SelectionVector, MAX_ROWS, NIL,
};

#[test]
fn executes_filter_sort_take_project() {
    let cat = demo_catalog();
    let q = "இருந்து பயனர்கள் | வடி வயது > 21 | அடுக்கு வயது | எடு 10 | தேடு பெயர், வயது;";
    let mut arena = Box::new(AstArena::new());
    let mut out = QueryResult::new_boxed();
    let mut scratch = RuntimeScratch::new_boxed();
    let mut tokens = alloc_token_window();
    assert!(run_query(q, &cat, &mut arena, &mut out, &mut scratch, &mut tokens).is_ok());
    assert_eq!(out.col_count, 2);
    assert_eq!(out.row_count, 10);
    let mut prev = i64::MIN;
    let mut i = 0u16;
    while i < out.row_count {
        let age = out.int_out[1].values[i as usize];
        assert!(age > 21);
        assert!(age >= prev);
        prev = age;
        i += 1;
    }
    assert!(out.utf8_out[0].get_row(0).unwrap().len() > 0);
}

#[test]
fn radix_sort_selected_is_stable_ascending() {
    let mut scratch = RuntimeScratch::new_boxed();
    let raw: [i64; 12] = [30, 10, 20, 10, 40, 5, 20, 15, 5, 40, 25, 1];
    let mut i = 0usize;
    while i < 12 {
        scratch.key_buf[i] = raw[i];
        i += 1;
    }
    let sel = SelectionVector::all(12);
    let mut order_len = 0usize;
    Engine::sort_i64_selected(
        &scratch.key_buf,
        &sel,
        12,
        &mut scratch.order,
        &mut order_len,
        &mut scratch.tmp_u16,
    );
    assert_eq!(order_len, 12);
    let mut prev = i64::MIN;
    let mut j = 0usize;
    while j < order_len {
        let v = scratch.key_buf[scratch.order[j] as usize];
        assert!(v >= prev);
        prev = v;
        j += 1;
    }
    let mut seen_first_10 = false;
    let mut k = 0usize;
    while k < order_len {
        if scratch.key_buf[scratch.order[k] as usize] == 10 {
            if !seen_first_10 {
                assert_eq!(scratch.order[k], 1);
                seen_first_10 = true;
            } else {
                assert_eq!(scratch.order[k], 3);
                break;
            }
        }
        k += 1;
    }
}

#[test]
fn chunk_tail_scalar_residue_non_multiple_of_batch() {
    let mut values = [0i64; MAX_ROWS];
    let mut r = 0usize;
    while r < 15 {
        values[r] = r as i64;
        r += 1;
    }
    values[15] = 999;
    let mut sel = SelectionVector::all(15);
    sel.mask[15] = 0xAB;
    Engine::filter_i64_gt(&values, &mut sel, 15, 7);
    let mut i = 0usize;
    while i < 8 {
        assert_eq!(sel.mask[i], 0, "row {i} must be dropped");
        i += 1;
    }
    while i < 15 {
        assert_eq!(sel.mask[i], 1, "row {i} must be kept");
        i += 1;
    }
    assert_eq!(sel.mask[15], 0xAB, "must not clobber past live row count");
}

#[test]
fn scalar_cleanup_after_full_batch_1025_rows() {
    const LIVE: usize = 1025;
    let mut values = [0i64; MAX_ROWS];
    let mut i = 0usize;
    while i < LIVE {
        values[i] = 1;
        i += 1;
    }
    values[1024] = 42;
    let mut sel = SelectionVector::all(LIVE);
    Engine::filter_i64_eq(&values, &mut sel, LIVE, 42);
    let mut kept = 0usize;
    let mut r = 0usize;
    while r < LIVE {
        kept += sel.mask[r] as usize;
        r += 1;
    }
    assert_eq!(kept, 1);
    assert_eq!(sel.mask[1024], 1);
}

#[test]
fn what_a_query_leaves_can_be_read() {
    let cat = demo_catalog();
    let mut arena = Box::new(AstArena::new());
    let mut out = QueryResult::new_boxed();
    let mut scratch = RuntimeScratch::new_boxed();
    let mut tokens = alloc_token_window();
    let mut run = |q: &str, out: &mut QueryResult, scratch: &mut RuntimeScratch| {
        run_query(q, &cat, &mut arena, out, scratch, &mut tokens)
    };
    assert!(run("இருந்து பயனர்கள்;", &mut out, &mut scratch).is_ok());
    assert_eq!(scratch.has_derived, 0);
    assert_eq!(scratch.derived_name.as_bytes(), b"");
    assert!(run("இருந்து பயனர்கள் | கணி ab = வயது - 1;", &mut out, &mut scratch).is_ok());
    assert_eq!(scratch.has_derived, 1);
    assert_eq!(scratch.derived_name.as_bytes(), b"ab");
    assert!(scratch.derived_name.bytes[2..].iter().all(|&b| b == 0));
    assert_eq!(out.schema[0].name.as_bytes(), b"ab");
    assert_eq!(&out.int_out[0].values[..3], &[17, 21, 18]);
    // A query that fails at its source leaves the derived column as it was.
    assert!(run("இருந்து இல்லை;", &mut out, &mut scratch).is_err());
    assert_eq!(scratch.has_derived, 1);
    assert_eq!(scratch.derived_name.as_bytes(), b"ab");
    assert!(run("இருந்து ஆர்டர்கள் | தொகுப்பு விலை;", &mut out, &mut scratch).is_ok());
    assert_eq!(scratch.has_derived, 1);
    assert_eq!(scratch.derived_name.as_bytes(), "எண்ணிக்கை".as_bytes());
    let groups = scratch.groups.len as usize;
    assert_eq!(groups, 12);
    assert!(scratch.groups.count[..groups].iter().all(|&n| n >= 1));
}

#[test]
fn a_failed_derive_names_its_column() {
    let cat = demo_catalog();
    let mut arena = Box::new(AstArena::new());
    let mut out = QueryResult::new_boxed();
    let mut scratch = RuntimeScratch::new_boxed();
    let mut tokens = alloc_token_window();
    let q = "இருந்து பயனர்கள் | கணி ab = இல்லை + 1;";
    assert!(run_query(q, &cat, &mut arena, &mut out, &mut scratch, &mut tokens).is_err());
    assert_eq!(scratch.has_derived, 1);
    assert_eq!(scratch.derived_name.as_bytes(), b"ab");
    assert!(scratch.derived.iter().all(|&v| v == 0));
    assert_eq!(&scratch.order[..3], &[0, 1, 2]);
}

#[test]
fn a_condition_does_not_change_a_join() {
    let cat = demo_catalog();
    let run = |q: &str| {
        let mut arena = Box::new(AstArena::new());
        let mut out = QueryResult::new_boxed();
        let mut scratch = RuntimeScratch::new_boxed();
        let mut tokens = alloc_token_window();
        assert!(run_query(q, &cat, &mut arena, &mut out, &mut scratch, &mut tokens).is_ok());
        (0..out.row_count as usize).map(|r| out.int_out[0].values[r]).collect::<Vec<i64>>()
    };
    let plain = run("இருந்து பயனர்கள் | இணை ஆர்டர்கள் | தேடு விலை;");
    let conditioned =
        run("இருந்து பயனர்கள் | இணை ஆர்டர்கள் எங்கே வயது = விலை | தேடு விலை;");
    assert_eq!(plain.len(), 12);
    assert_eq!(conditioned, plain);
}

fn sort_by_mask(mask: &[u8], values: &[i64]) -> (usize, Box<RuntimeScratch>) {
    let mut scratch = RuntimeScratch::new_boxed();
    scratch.key_buf[..values.len()].copy_from_slice(values);
    scratch.order = [77; MAX_ROWS];
    scratch.tmp_u16 = [88; MAX_ROWS];
    let mut sel = SelectionVector::all(mask.len());
    sel.mask[..mask.len()].copy_from_slice(mask);
    let mut len = 99usize;
    Engine::sort_i64_selected(
        &scratch.key_buf,
        &sel,
        mask.len(),
        &mut scratch.order,
        &mut len,
        &mut scratch.tmp_u16,
    );
    (len, scratch)
}

#[test]
fn rows_are_appended_by_the_bytes_of_the_mask() {
    // A dropped last row stands behind the kept ones; one sorted row is not scattered.
    let (len, s) = sort_by_mask(&[1, 0], &[5, 6]);
    assert_eq!((len, &s.order[..3], s.tmp_u16[0]), (1, &[0, 1, 77][..], 88));
    // A dropped row before a kept one is written over.
    let (len, s) = sort_by_mask(&[0, 1, 1], &[5, 9, 2]);
    assert_eq!((len, &s.order[..3]), (2, &[2, 1, 77][..]));
    assert_eq!(&s.tmp_u16[..3], &[2, 1, 88]);
    // A larger byte moves the list on by as much, over what stood there.
    let (len, s) = sort_by_mask(&[2], &[5]);
    assert_eq!((len, &s.order[..3]), (2, &[77, 0, 77][..]));
    let (len, s) = sort_by_mask(&[], &[]);
    assert_eq!((len, s.order[0]), (0, 77));
}

#[test]
fn a_join_leaves_its_sorted_rows_in_the_scatter_buffer() {
    let mut s = RuntimeScratch::new_boxed();
    s.tmp_u16 = [88; MAX_ROWS];
    let mut left = [0i64; MAX_ROWS];
    let mut right = [0i64; MAX_ROWS];
    left[..3].copy_from_slice(&[30, 10, 20]);
    right[..2].copy_from_slice(&[20, 10]);
    let n = vector_merge_join(
        &left,
        3,
        &right,
        2,
        &mut s.join_left,
        &mut s.join_right,
        &mut s.left_order,
        &mut s.right_order,
        &mut s.tmp_u16,
    );
    assert_eq!((n, &s.join_left[..2], &s.join_right[..2]), (2, &[1, 2][..], &[1, 0][..]));
    assert_eq!(&s.tmp_u16[..4], &[1, 0, 0, 88]);
}

#[test]
fn a_query_that_cannot_be_parsed_leaves_its_first_nodes() {
    let cat = demo_catalog();
    let mut arena = Box::new(AstArena::new());
    let mut out = QueryResult::new_boxed();
    let mut scratch = RuntimeScratch::new_boxed();
    let mut tokens = alloc_token_window();
    let q = "இருந்து a | வடி b > c;";
    let r = run_query(q, &cat, &mut arena, &mut out, &mut scratch, &mut tokens);
    assert_eq!(r, Err(EngineError::ParseFailed));
    // The source, the root and the name of the filter.
    assert_eq!((arena.len, arena.root), (4, NIL));
    assert_eq!(arena.get(1).unwrap().kind, NodeKind::From);
    assert_eq!(arena.get(2).unwrap().kind, NodeKind::Pipeline);
    assert_eq!(arena.get(3).unwrap().kind, NodeKind::Ident);
    assert_eq!(arena.get(1).unwrap().next, NIL);
}
