use mazegen::rand::{
    rand, rearrange, reduce, settle, shuffle, shuffle_with, Clock, RandomSource, Seeded,
};

struct Stuck;

impl RandomSource for Stuck {
    fn uniform(&mut self, _n: usize) -> usize {
        0
    }
}

struct Top;

impl RandomSource for Top {
    fn uniform(&mut self, n: usize) -> usize {
        n - 1
    }
}

#[test]
fn shuffle_test() {
    let trials = 400;
    for n in 2..10 {
        let mut kept = 0;
        for _ in 0..trials {
            let mut v = (1..=n).collect();
            shuffle(&mut v);

            if v.is_sorted() {
                kept += 1;
            }
        }
        assert!(kept < trials);
    }
}

#[test]
fn rand_stays_below_its_end() {
    for end in 1..200 {
        for _ in 0..20 {
            assert!(rand(end) < end);
        }
    }
    assert_eq!(rand(1), 0);
    assert!(rand(usize::MAX) < usize::MAX);
}

#[test]
fn reduce_is_the_remainder() {
    assert_eq!(reduce(17, 5), 2);
    assert_eq!(reduce(999_999_999, 1_000), 999);
    assert_eq!(reduce(0, 7), 0);
    assert_eq!(reduce(6, 7), 6);
    assert_eq!(reduce(7, 7), 0);
    assert_eq!(reduce(123, 1), 0);
    assert_eq!(reduce(u32::MAX, usize::MAX), u32::MAX as usize);
}

#[test]
fn clock_source_stays_below_its_end() {
    let mut clock = Clock;
    for end in 1..50 {
        assert!(clock.uniform(end) < end);
    }
}

#[test]
fn seeded_source_repeats_itself() {
    let mut g = Seeded::new(0);
    assert_eq!(g.uniform(10), 7);
    assert_eq!(g.uniform(10), 4);
    assert_eq!(g.uniform(10), 7);

    let mut g = Seeded::new(42);
    assert_eq!(g.uniform(4), 2);
    assert_eq!(g.uniform(4), 2);
    assert_eq!(g.uniform(4), 2);
    assert_eq!(g.uniform(4), 3);
    assert_eq!(g.uniform(100), 94);

    let mut a = Seeded::new(7);
    let mut b = Seeded::new(7);
    for end in 1..100 {
        assert_eq!(a.uniform(end), b.uniform(end));
    }
}

#[test]
fn shuffle_keeps_the_elements() {
    let mut g = Seeded::new(3);
    for n in 0..30 {
        let mut v: Vec<usize> = (0..n).map(|x| x % 7).collect();
        let mut before = v.clone();
        shuffle_with(&mut v, &mut g);
        assert_eq!(v.len(), n);
        let mut after = v.clone();
        before.sort();
        after.sort();
        assert_eq!(before, after);
    }
}

#[test]
fn shuffle_leaves_short_vectors_alone() {
    let mut empty: Vec<u8> = Vec::new();
    shuffle(&mut empty);
    assert!(empty.is_empty());

    let mut one = vec![5];
    shuffle(&mut one);
    assert_eq!(one, vec![5]);
}

#[test]
fn shuffle_can_give_every_order() {
    let mut g = Seeded::new(7);
    let mut seen: Vec<Vec<u8>> = Vec::new();
    for _ in 0..600 {
        let mut v = vec![1, 2, 3];
        shuffle_with(&mut v, &mut g);
        if !seen.contains(&v) {
            seen.push(v);
        }
    }
    seen.sort();
    assert_eq!(
        seen,
        vec![
            vec![1, 2, 3],
            vec![1, 3, 2],
            vec![2, 1, 3],
            vec![2, 3, 1],
            vec![3, 1, 2],
            vec![3, 2, 1],
        ]
    );
}

#[test]
fn shuffle_keeps_the_order_now_and_then() {
    let mut g = Seeded::new(5);
    let trials = 1000;
    let mut kept = 0;
    for _ in 0..trials {
        let mut v = vec![1, 2];
        shuffle_with(&mut v, &mut g);
        if v == vec![1, 2] {
            kept += 1;
        }
    }
    // about one half for two elements
    assert!(kept > trials / 4 && kept < 3 * trials / 4);

    let mut kept = 0;
    for _ in 0..trials {
        let mut v: Vec<usize> = (0..6).collect();
        shuffle_with(&mut v, &mut g);
        if v.is_sorted() {
            kept += 1;
        }
    }
    // about one in 720 for six elements
    assert!(kept < trials / 20);
}

#[test]
fn shuffle_with_the_top_draw_changes_nothing() {
    let mut v = vec![4, 8, 15, 16, 23, 42];
    shuffle_with(&mut v, &mut Top);
    assert_eq!(v, vec![4, 8, 15, 16, 23, 42]);
}

#[test]
fn rearrange_follows_the_draws() {
    let mut v = vec![10, 20, 30];
    rearrange(&mut v, &vec![0, 1]);
    assert_eq!(v, vec![30, 20, 10]);

    let mut v = vec![10, 20, 30];
    rearrange(&mut v, &vec![2, 1]);
    assert_eq!(v, vec![10, 20, 30]);

    let mut v = vec![10, 20, 30];
    rearrange(&mut v, &vec![1, 0]);
    assert_eq!(v, vec![30, 10, 20]);

    let mut v = vec!['a', 'b', 'c', 'd'];
    rearrange(&mut v, &vec![0, 0, 0]);
    assert_eq!(v, vec!['b', 'c', 'd', 'a']);

    let mut v = vec!['a', 'b', 'c', 'd'];
    rearrange(&mut v, &vec![3, 0, 1]);
    assert_eq!(v, vec!['c', 'b', 'a', 'd']);
}

#[test]
fn rearrange_leaves_short_vectors_alone() {
    let mut empty: Vec<u8> = Vec::new();
    rearrange(&mut empty, &Vec::new());
    assert!(empty.is_empty());

    let mut one = vec![5];
    rearrange(&mut one, &Vec::new());
    assert_eq!(one, vec![5]);
}

#[test]
fn settle_falls_back_to_zero() {
    assert_eq!(settle(None, 1), 0);
    assert_eq!(settle(None, 7), 0);
    assert_eq!(settle(None, usize::MAX), 0);
    assert_eq!(settle(Some(17), 5), 2);
    assert_eq!(settle(Some(999_999_999), 1_000), 999);
    assert_eq!(settle(Some(0), 9), 0);
    assert_eq!(settle(Some(8), 9), 8);
    assert_eq!(settle(Some(9), 9), 0);
}

#[test]
fn shuffle_with_a_stuck_source() {
    // every slot is exchanged with slot 0 in turn
    let mut v = vec![0, 1, 2, 3];
    shuffle_with(&mut v, &mut Stuck);
    assert_eq!(v, vec![1, 2, 3, 0]);

    let mut v = vec!['a', 'b'];
    shuffle_with(&mut v, &mut Stuck);
    assert_eq!(v, vec!['b', 'a']);
}

#[test]
fn rand_is_a_sub_second_reading() {
    for _ in 0..50 {
        assert!(rand(usize::MAX) < 1_000_000_000);
        assert!(rand(2_000_000_000) < 1_000_000_000);
        assert!(Clock.uniform(usize::MAX) < 1_000_000_000);
    }
}
