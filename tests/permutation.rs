use stream_executor::permutation::random_permutation;

fn collect(len: u32, draws: [u32; 4]) -> Vec<u32> {
    let mut it = random_permutation(len, draws);
    let mut out = Vec::new();
    while let Some(v) = it.next() {
        out.push(v);
    }
    out
}

fn is_permutation(v: &[u32], len: u32) -> bool {
    let mut seen = vec![false; len as usize];
    for &x in v {
        if x >= len || seen[x as usize] {
            return false;
        }
        seen[x as usize] = true;
    }
    v.len() == len as usize
}

#[test]
fn identity_mixer_order() {
    assert_eq!(collect(4, [0, 1, 1, 0]), vec![0, 1, 3, 2]);
}

#[test]
fn rotated_first_index() {
    assert_eq!(collect(4, [0, 1, 1, u32::MAX]), vec![3, 0, 2, 1]);
}

#[test]
fn empty_order() {
    assert_eq!(collect(0, [5, 6, 7, 8]), Vec::<u32>::new());
}

#[test]
fn single_index() {
    assert_eq!(collect(1, [123, 456, 789, u32::MAX]), vec![0]);
}

#[test]
fn two_indices_are_both_visited() {
    for d in [0u32, 1, 2, 3, 0x8000_0000, u32::MAX] {
        let v = collect(2, [d, d.wrapping_mul(3), d ^ 0x55, d.rotate_left(7)]);
        assert!(is_permutation(&v, 2), "{:?}", v);
    }
}

#[test]
fn every_length_is_a_bijection() {
    let mut state: u32 = 0x1234_5678;
    let mut draw = || {
        state ^= state << 13;
        state ^= state >> 17;
        state ^= state << 5;
        state
    };
    for len in 1u32..=130 {
        for _ in 0..8 {
            let draws = [draw(), draw(), draw(), draw()];
            let v = collect(len, draws);
            assert!(is_permutation(&v, len), "len {} draws {:?}: {:?}", len, draws, v);
        }
    }
}

#[test]
fn large_length_is_a_bijection() {
    let v = collect(5000, [0xdead_beef, 0x1234_5677, 0x9e37_79b9, 0x7fff_ffff]);
    assert!(is_permutation(&v, 5000));
}

#[test]
fn into_vec_hands_out_the_rest() {
    let mut it = random_permutation(10, [9, 8, 7, 6]);
    let first = it.next().unwrap();
    let second = it.next().unwrap();
    let rest = it.into_vec();
    let mut all = vec![first, second];
    all.extend(rest);
    assert_eq!(all, collect(10, [9, 8, 7, 6]));
    assert!(is_permutation(&all, 10));
}

#[test]
fn first_index_follows_the_uniform_draw() {
    // With an identity mixer the order starts at (draw * len) >> 32.
    let len = 8u32;
    for d in [0u32, 0x2000_0000, 0x8000_0000, 0xffff_ffff] {
        let v = collect(len, [0, 1, 1, d]);
        assert_eq!(v[0] as u64, (d as u64 * len as u64) >> 32);
    }
}
