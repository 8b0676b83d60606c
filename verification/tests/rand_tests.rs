use lib::rand::{ChaCha20Rng, SeedableRng, Standard, UniformU32, UniformU64};
use lib::rand::slice::SliceRandom;

#[test]
fn chacha_zero_key_first_words() {
    let mut r = ChaCha20Rng::from_seed([0u8; 32]);
    assert_eq!(r.next_u32(), 0xade0b876);
    assert_eq!(r.next_u32(), 0x903df1a0);
    assert_eq!(r.next_u32(), 0xe56a5d40);
    assert_eq!(r.next_u32(), 0x28bd8653);
}

#[test]
fn chacha_fill_bytes_is_little_endian_words() {
    let mut r = ChaCha20Rng::from_seed([0u8; 32]);
    let mut buf = [0u8; 10];
    r.fill_bytes(&mut buf);
    assert_eq!(&buf[..8], &[0x76, 0xb8, 0xe0, 0xad, 0xa0, 0xf1, 0x3d, 0x90]);
    assert_eq!(&buf[8..], &[0x40, 0x5d]);
    // the partial word was used up
    assert_eq!(r.next_u32(), 0x28bd8653);
}

#[test]
fn chacha_next_u64_joins_two_words() {
    let mut r = ChaCha20Rng::from_seed([0u8; 32]);
    assert_eq!(r.next_u64(), 0x903df1a0_ade0b876);
}

#[test]
fn chacha_word_pos_and_stream() {
    let mut a = ChaCha20Rng::seed_from_u64(7);
    let words: Vec<u32> = (0..300).map(|_| a.next_u32()).collect();
    for pos in [0u128, 1, 15, 16, 127, 128, 129, 250] {
        let mut b = ChaCha20Rng::seed_from_u64(7);
        b.set_word_pos(pos);
        assert_eq!(b.next_u32(), words[pos as usize]);
    }
    let mut c = ChaCha20Rng::seed_from_u64(7);
    c.set_stream(1);
    assert_ne!(c.next_u32(), words[0]);
    let mut d = ChaCha20Rng::seed_from_u64(7);
    d.set_stream(0);
    assert_eq!(d.next_u32(), words[0]);
}

#[test]
fn chacha_seed_from_u64_is_deterministic() {
    let mut a = ChaCha20Rng::seed_from_u64(42);
    let mut b = ChaCha20Rng::seed_from_u64(42);
    let mut c = ChaCha20Rng::seed_from_u64(43);
    let x: Vec<u32> = (0..20).map(|_| a.next_u32()).collect();
    let y: Vec<u32> = (0..20).map(|_| b.next_u32()).collect();
    let z: Vec<u32> = (0..20).map(|_| c.next_u32()).collect();
    assert_eq!(x, y);
    assert_ne!(x, z);
}

#[test]
fn chacha_ranges_stay_in_bounds() {
    let mut r = ChaCha20Rng::seed_from_u64(1);
    for _ in 0..1000 {
        let a = r.gen_range_u32(10, 17);
        assert!((10..17).contains(&a));
        let b = r.gen_range_u64(5, 6);
        assert_eq!(b, 5);
        let c = r.gen_range_u64(0, u64::MAX);
        assert!(c < u64::MAX);
    }
    let u = UniformU32::new(3, 9);
    let w = UniformU64::new(100, 200);
    for _ in 0..200 {
        assert!((3..9).contains(&u.sample(&mut r)));
        assert!((100..200).contains(&w.sample(&mut r)));
    }
}

#[test]
fn standard_samples_follow_the_stream() {
    let mut a = ChaCha20Rng::from_seed([0u8; 32]);
    let s = Standard;
    assert_eq!(s.sample_u32(&mut a), 0xade0b876);
    assert_eq!(s.sample_bool(&mut a), 0x903df1a0u32 & 1 == 1);
    assert_eq!(s.sample_u64(&mut a), 0x28bd8653_e56a5d40);
}

#[test]
fn shuffle_is_fisher_yates_over_range_draws() {
    let mut a = ChaCha20Rng::seed_from_u64(7);
    let mut b = ChaCha20Rng::seed_from_u64(7);
    let mut v: Vec<u32> = (0..20).collect();
    v.as_mut_slice().shuffle(&mut a);
    let mut w: Vec<u32> = (0..20).collect();
    let mut i = w.len();
    while i > 1 {
        i -= 1;
        let j = b.gen_range_u64(0, (i + 1) as u64) as usize;
        w.swap(i, j);
    }
    assert_eq!(v, w);
    assert_eq!(a.next_u32(), b.next_u32());
    let mut sorted = v.clone();
    sorted.sort();
    assert_eq!(sorted, (0..20).collect::<Vec<u32>>());
    assert_ne!(v, (0..20).collect::<Vec<u32>>());
}

#[test]
fn shuffle_of_short_slices_draws_nothing() {
    let mut a = ChaCha20Rng::seed_from_u64(3);
    let mut b = ChaCha20Rng::seed_from_u64(3);
    let mut one = vec![5u8];
    one.as_mut_slice().shuffle(&mut a);
    assert_eq!(one, vec![5u8]);
    assert_eq!(a.next_u64(), b.next_u64());
}

#[test]
fn partial_shuffle_touches_only_the_front() {
    let mut a = ChaCha20Rng::seed_from_u64(11);
    let mut b = ChaCha20Rng::seed_from_u64(11);
    let mut v: Vec<u32> = (0..10).collect();
    v.as_mut_slice().partial_shuffle(&mut a, 3);
    let mut w: Vec<u32> = (0..10).collect();
    for i in 0..3 {
        let j = i + b.gen_range_u64(0, (10 - i) as u64) as usize;
        w.swap(i, j);
    }
    assert_eq!(v, w);
    let mut sorted = v.clone();
    sorted.sort();
    assert_eq!(sorted, (0..10).collect::<Vec<u32>>());
    // an amount past the end shuffles the whole slice
    let mut c = ChaCha20Rng::seed_from_u64(11);
    let mut d = ChaCha20Rng::seed_from_u64(11);
    let mut x: Vec<u32> = (0..4).collect();
    x.as_mut_slice().partial_shuffle(&mut c, 100);
    let mut y: Vec<u32> = (0..4).collect();
    y.as_mut_slice().partial_shuffle(&mut d, 4);
    assert_eq!(x, y);
}

#[test]
fn choose_draws_an_index() {
    let mut a = ChaCha20Rng::seed_from_u64(5);
    let mut b = ChaCha20Rng::seed_from_u64(5);
    let v = vec![10u32, 20, 30, 40, 50];
    let got = *v.as_slice().choose_item(&mut a).unwrap();
    let i = b.gen_range_u64(0, 5) as usize;
    assert_eq!(got, v[i]);
    let empty: Vec<u32> = Vec::new();
    assert!(empty.as_slice().choose_item(&mut a).is_none());
    assert_eq!(a.next_u32(), b.next_u32());
}

#[test]
fn choose_mut_writes_through() {
    let mut a = ChaCha20Rng::seed_from_u64(9);
    let mut b = ChaCha20Rng::seed_from_u64(9);
    let mut v = vec![0u32; 6];
    *v.as_mut_slice().choose_mut(&mut a).unwrap() = 7;
    let i = b.gen_range_u64(0, 6) as usize;
    assert_eq!(v[i], 7);
    assert_eq!(v.iter().filter(|x| **x == 7).count(), 1);
}

#[test]
fn chacha_set_stream_keeps_word_position() {
    for k in [0usize, 1, 5, 16, 127, 128, 129, 300] {
        let mut r1 = ChaCha20Rng::seed_from_u64(9);
        for _ in 0..k {
            r1.next_u32();
        }
        r1.set_stream(3);
        let mut r2 = ChaCha20Rng::seed_from_u64(9);
        r2.set_stream(3);
        r2.set_word_pos(k as u128);
        for _ in 0..40 {
            assert_eq!(r1.next_u32(), r2.next_u32());
        }
    }
}
