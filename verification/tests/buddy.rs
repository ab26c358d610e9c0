use ext4_core::buddy::BlockGroupBuddy;

#[test]
fn buddy_takes_the_whole_chunk_at_hope() {
    // A run found at the hoped-for place takes its chunks whole, however
    // few blocks were asked for: the rest of a chunk is not given back.
    let mut b = BlockGroupBuddy::new(4);
    b.push_chunk(0, 16);
    assert_eq!(b.try_allocate(4, Some(0)), Some((0, 4)));
    assert_eq!(b.try_allocate(4, Some(4)), None);
}

#[test]
fn buddy_splits_the_first_fitting_chunk() {
    let mut b = BlockGroupBuddy::new(4);
    b.push_chunk(0, 16);
    assert_eq!(b.try_allocate(3, None), Some((0, 3)));
    assert_eq!(b.try_allocate(1, Some(3)), Some((3, 1)));
    assert_eq!(b.try_allocate(4, None), Some((4, 4)));
}

#[test]
fn buddy_empty_gives_nothing() {
    let mut b = BlockGroupBuddy::new(4);
    assert_eq!(b.try_allocate(1, None), None);
}

#[test]
fn buddy_runs_do_not_overlap() {
    let mut b = BlockGroupBuddy::new(4);
    b.push_chunk(3, 29);
    let mut taken = vec![false; 32];
    let mut total = 0;
    while let Some((p, n)) = b.try_allocate(3, None) {
        for x in p..p + n {
            assert!(x >= 3 && x < 32, "block {} was never free", x);
            assert!(!taken[x], "block {} given twice", x);
            taken[x] = true;
        }
        total += n;
    }
    while let Some((p, n)) = b.try_allocate(1, None) {
        assert!(!taken[p] && n == 1);
        taken[p] = true;
        total += n;
    }
    assert_eq!(total, 29);
}
