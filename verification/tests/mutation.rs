//! Pseudo-random changes to queries.

use tamil_query_engine::mutation::{mutate, MUTATION_CAP, MUTATION_SEED_QUERY};
use tamil_query_engine::{
    alloc_token_window, demo_catalog, run_query, AstArena, QueryResult, RuntimeScratch,
};

#[test]
fn the_generator_is_the_known_one() {
    let mut seed = 0xC0FFEEu64;
    let mut buf = b"abc".to_vec();
    mutate(&mut seed, &mut buf);
    assert_eq!(seed, 0xC0FFEEu64.wrapping_mul(6364136223846793005).wrapping_add(1));
}

#[test]
fn every_kind_of_change_happens() {
    let want = |r: u64, buf: &[u8]| -> Vec<u8> {
        let mut b = buf.to_vec();
        match (r >> 8) % 5 {
            0 => {
                if !b.is_empty() {
                    let i = (r as usize) % b.len();
                    b[i] = (r >> 16) as u8;
                }
            }
            1 => b.push((r >> 24) as u8),
            2 => {
                b.pop();
            }
            3 => {
                let n = ((r >> 16) % 17) as usize;
                b.extend(std::iter::repeat((r >> 8) as u8).take(n));
            }
            _ => {
                b = MUTATION_SEED_QUERY.as_bytes().to_vec();
                let i = (r as usize) % b.len();
                b[i] ^= 0x20;
            }
        }
        b.truncate(MUTATION_CAP);
        b
    };
    let mut seed = 1u64;
    let mut buf = Vec::new();
    let mut kinds = [0usize; 5];
    for _ in 0..400 {
        let r = seed.wrapping_mul(6364136223846793005).wrapping_add(1);
        kinds[((r >> 8) % 5) as usize] += 1;
        let expected = want(r, &buf);
        mutate(&mut seed, &mut buf);
        assert_eq!(seed, r);
        assert_eq!(buf, expected);
    }
    assert!(kinds.iter().all(|&k| k > 20));
}

#[test]
fn long_buffers_are_cut() {
    let mut seed = 0u64;
    let mut buf = vec![b'x'; 5000];
    mutate(&mut seed, &mut buf);
    assert!(buf.len() <= MUTATION_CAP);
}

#[test]
fn changed_queries_never_panic() {
    let catalog = demo_catalog();
    let mut arena = Box::new(AstArena::new());
    let mut out = QueryResult::new_boxed();
    let mut scratch = RuntimeScratch::new_boxed();
    let mut tokens = alloc_token_window();
    let mut buf = MUTATION_SEED_QUERY.as_bytes().to_vec();
    let mut seed = 0xC0FFEEu64;
    let mut ran = 0usize;
    for _ in 0..2000 {
        mutate(&mut seed, &mut buf);
        if let Ok(src) = core::str::from_utf8(&buf) {
            let _ = run_query(src, &catalog, &mut arena, &mut out, &mut scratch, &mut tokens);
            ran += 1;
        }
    }
    assert!(ran > 0);
}
