use theb::Random;

#[test]
fn next_follows_the_linear_congruence() {
    let mut r = Random { seed: 0 };
    assert_eq!(r.next(), 1013904223);
    assert_eq!(r.next(), 1196435762);
    assert_eq!(r.next(), 3519870697);
    assert_eq!(r.seed, 3519870697);
}

#[test]
fn next_reduces_a_large_seed() {
    let mut large = Random { seed: (1u64 << 40) + 5 };
    let mut small = Random { seed: 5 };
    assert_eq!(large.next(), 1022226848);
    assert_eq!(small.next(), 1022226848);
    let mut top = Random { seed: u64::MAX };
    assert!(top.next() < (1u64 << 32));
}

#[test]
fn shuffle_follows_the_passes() {
    let mut r = Random { seed: 7 };
    let mut v: Vec<u32> = (0..6).collect();
    r.shuffle(&mut v);
    assert_eq!(v, vec![0, 5, 2, 3, 4, 1]);
    assert_eq!(r.seed, 2281704755);

    let mut r = Random { seed: 2 };
    let mut v: Vec<u32> = (0..8).collect();
    r.shuffle(&mut v);
    assert_eq!(v, vec![0, 5, 2, 7, 1, 4, 3, 6]);
    assert_eq!(r.seed, 1919597778);
}

#[test]
fn shuffle_of_nothing_draws_nothing() {
    let mut r = Random { seed: 11 };
    let mut v: Vec<u8> = vec![];
    r.shuffle(&mut v);
    assert!(v.is_empty());
    assert_eq!(r.seed, 11);
}
