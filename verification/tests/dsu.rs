use mazegen::dsu::Dsu;

#[test]
fn same_set() {
    let mut dsu = Dsu::new(10);

    assert!(!dsu.same_set(1, 3));
    assert!(!dsu.same_set(0, 3));
    assert!(dsu.same_set(3, 3));
}

#[test]
fn merge() {
    let mut dsu = Dsu::new(10);

    dsu.merge(3, 2);
    dsu.merge(4, 2);

    dsu.merge(5, 1);

    dsu.merge(2, 1);

    assert_eq!(dsu.size(2), 5);
    assert_eq!(dsu.parent(1), 2);
    assert_eq!(dsu.find_parent(5), 2);
}

#[test]
fn find_parent() {
    let mut dsu = Dsu::new(10);

    assert_eq!(dsu.find_parent(1), 1);

    dsu.merge(3, 1);
    dsu.merge(2, 1);

    assert_eq!(dsu.find_parent(1), 1);
    assert_eq!(dsu.find_parent(2), 1);
    assert_eq!(dsu.find_parent(3), 1);
}

#[test]
fn new_sets_are_singletons() {
    let mut dsu = Dsu::new(6);
    for x in 0..6 {
        assert_eq!(dsu.parent(x), x);
        assert_eq!(dsu.size(x), 1);
        assert_eq!(dsu.find_parent(x), x);
    }
}

#[test]
fn empty_structure_can_be_built() {
    let _dsu = Dsu::new(0);
}

#[test]
fn merge_reports_whether_sets_were_apart() {
    let mut dsu = Dsu::new(5);

    assert!(dsu.merge(0, 1));
    assert!(dsu.same_set(0, 1));
    assert!(!dsu.merge(0, 1));
    assert!(!dsu.merge(1, 0));
    assert!(!dsu.merge(2, 2));

    assert!(dsu.merge(2, 3));
    assert!(dsu.merge(1, 3));
    assert!(dsu.same_set(0, 2));
    assert!(!dsu.merge(0, 2));
    assert!(!dsu.same_set(0, 4));
}

#[test]
fn tie_goes_to_the_second_argument() {
    let mut dsu = Dsu::new(4);

    dsu.merge(0, 1);
    assert_eq!(dsu.find_parent(0), 1);
    assert_eq!(dsu.parent(0), 1);
    assert_eq!(dsu.size(1), 2);

    dsu.merge(2, 3);
    dsu.merge(3, 0);
    assert_eq!(dsu.find_parent(2), 1);
    assert_eq!(dsu.parent(3), 1);
    assert_eq!(dsu.size(1), 4);
}

#[test]
fn larger_set_absorbs_the_smaller() {
    let mut dsu = Dsu::new(6);

    dsu.merge(0, 1);
    dsu.merge(2, 1);
    // the set of 1 has three elements, the set of 4 has one
    dsu.merge(1, 4);
    assert_eq!(dsu.find_parent(4), 1);
    assert_eq!(dsu.parent(4), 1);
    assert_eq!(dsu.size(1), 4);
}

#[test]
fn same_set_follows_chains_of_merges() {
    let mut dsu = Dsu::new(8);
    let merges = [(0, 1), (2, 3), (1, 2), (5, 6)];
    for (a, b) in merges {
        dsu.merge(a, b);
    }

    for a in [0, 1, 2, 3] {
        for b in [0, 1, 2, 3] {
            assert!(dsu.same_set(a, b));
        }
        for b in [4, 5, 6, 7] {
            assert!(!dsu.same_set(a, b));
        }
    }
    assert!(dsu.same_set(5, 6));
    assert!(!dsu.same_set(4, 7));
}

#[test]
fn root_size_counts_its_elements() {
    let mut dsu = Dsu::new(9);
    let merges = [(0, 1), (2, 3), (1, 3), (4, 5), (7, 8), (8, 5), (6, 6)];
    for (a, b) in merges {
        dsu.merge(a, b);
    }

    for r in 0..9 {
        if dsu.parent(r) == r {
            let mut count = 0;
            for x in 0..9 {
                if dsu.find_parent(x) == r {
                    count += 1;
                }
            }
            assert_eq!(dsu.size(r), count);
        }
    }
}

#[test]
fn find_compresses_the_path() {
    let mut dsu = Dsu::new(8);
    // 0 -> 1, 2 -> 3, then 1 -> 3, then 4 -> 5, 6 -> 7, 5 -> 7, then 3 -> 7
    dsu.merge(0, 1);
    dsu.merge(2, 3);
    dsu.merge(1, 3);
    dsu.merge(4, 5);
    dsu.merge(6, 7);
    dsu.merge(5, 7);
    dsu.merge(3, 7);
    assert_eq!(dsu.parent(0), 1);
    assert_eq!(dsu.parent(1), 3);
    assert_eq!(dsu.parent(3), 7);

    assert_eq!(dsu.find_parent(0), 7);
    assert_eq!(dsu.parent(0), 7);
    assert_eq!(dsu.parent(1), 7);
    assert_eq!(dsu.parent(3), 7);
    // a chain that was not walked is left alone
    assert_eq!(dsu.parent(4), 5);
}

#[test]
fn chains_stay_short() {
    let n = 64;
    let mut dsu = Dsu::new(n);
    // pair up sets of equal size again and again, without ever asking for a
    // root from below, so that the chains grow as long as they can
    let mut step = 1;
    while step < n {
        let mut x = 0;
        while x + step < n {
            let a = root_of(&dsu, x);
            let b = root_of(&dsu, x + step);
            dsu.merge(a, b);
            x += 2 * step;
        }
        step *= 2;
    }

    for x in 0..n {
        let mut links = 0;
        let mut cur = x;
        while dsu.parent(cur) != cur {
            cur = dsu.parent(cur);
            links += 1;
        }
        assert!(1usize << links <= dsu.size(cur));
        assert!(links <= 6);
    }
    assert_eq!(dsu.size(root_of(&dsu, 0)), n);
}

fn root_of(dsu: &Dsu, x: usize) -> usize {
    let mut cur = x;
    while dsu.parent(cur) != cur {
        cur = dsu.parent(cur);
    }
    cur
}
