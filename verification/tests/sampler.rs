use choosen::sampler::settle_slot;
use choosen::{Reservoir, ReservoirSampler};

fn held(slots: &[Option<i32>]) -> Vec<i32> {
    let mut items: Vec<i32> = slots.iter().filter_map(|slot| *slot).collect();
    items.sort();
    items
}

#[test]
fn test() {
    let list = [1, 2, 3, 4, 5, 6, 7, 8, 9, 10];
    let mut reservoir = Reservoir::<i32>::with_capacity(15);

    for &it in &list {
        let _ = reservoir.sample(it);
        println!("current: {:?}", reservoir.samples());
    }

    println!("result: {:?}", reservoir.lock());
}

#[test]
fn with_capacity_gives_empty_slots() {
    let reservoir = Reservoir::<i32>::with_capacity(4);
    assert_eq!(reservoir.samples(), &[None, None, None, None]);
    let none = Reservoir::<i32>::with_capacity(0);
    assert_eq!(none.samples().len(), 0);
    assert_eq!(none.lock(), Vec::<Option<i32>>::new());
}

#[test]
fn place_follows_the_rank() {
    let mut reservoir = Reservoir::<i32>::with_capacity(3);

    // first item: rank 0 % 1 + 1 = 1
    assert_eq!(reservoir.place(0, 10), (1, 1, None));
    assert_eq!(reservoir.samples(), &[Some(10), None, None]);

    // filling, rank 1 < seen 2: the old occupant moves to the first free slot
    assert_eq!(reservoir.place(0, 20), (1, 2, None));
    assert_eq!(reservoir.samples(), &[Some(20), Some(10), None]);

    // filling, rank 5 % 3 + 1 = 3 = seen: the item takes the free slot itself
    assert_eq!(reservoir.place(5, 30), (3, 3, None));
    assert_eq!(reservoir.samples(), &[Some(20), Some(10), Some(30)]);

    // full, rank 1 % 4 + 1 = 2: the occupant of slot 1 leaves
    assert_eq!(reservoir.place(1, 40), (2, 4, Some(10)));
    assert_eq!(reservoir.samples(), &[Some(20), Some(40), Some(30)]);

    // full, rank 3 % 5 + 1 = 4 > capacity: the item is passed over
    assert_eq!(reservoir.place(3, 50), (4, 5, None));
    assert_eq!(reservoir.samples(), &[Some(20), Some(40), Some(30)]);

    // full, rank 17 % 6 + 1 = 6 > capacity
    assert_eq!(reservoir.place(17, 60), (6, 6, None));
    // full, rank 14 % 7 + 1 = 1
    assert_eq!(reservoir.place(14, 70), (1, 7, Some(20)));
    assert_eq!(reservoir.samples(), &[Some(70), Some(40), Some(30)]);
}

#[test]
fn place_with_the_largest_draw() {
    let mut reservoir = Reservoir::<i32>::with_capacity(2);
    assert_eq!(reservoir.place(usize::MAX, 1), (1, 1, None));
    let rank = usize::MAX % 2 + 1;
    assert_eq!(reservoir.place(usize::MAX, 2), (rank, 2, None));
    assert_eq!(held(reservoir.samples()), vec![1, 2]);
}

#[test]
fn settle_slot_moves_the_ranked_slot() {
    let mut pool = vec![Some(1), Some(2), None, None];
    // rank 4 % 3 + 1 = 2: slot 1 moves to slot 2
    settle_slot(&mut pool, 3, 4);
    assert_eq!(pool, vec![Some(1), None, Some(2), None]);
    // rank 7 % 4 + 1 = 4: slot 3 moves onto itself
    settle_slot(&mut pool, 4, 7);
    assert_eq!(pool, vec![Some(1), None, Some(2), None]);
    // rank 1 % 4 + 1 = 2: an empty slot moves, nothing changes
    settle_slot(&mut pool, 4, 1);
    assert_eq!(pool, vec![Some(1), None, Some(2), None]);
    // rank 0 % 4 + 1 = 1: slot 0 moves to slot 3
    settle_slot(&mut pool, 4, 0);
    assert_eq!(pool, vec![None, None, Some(2), Some(1)]);
}

#[test]
fn rank_lies_between_one_and_seen_and_seen_counts_up() {
    let mut reservoir = Reservoir::<i32>::with_capacity(5);
    for n in 1..=200usize {
        let (rank, seen, _) = reservoir.sample(n as i32);
        assert_eq!(seen, n);
        assert!(1 <= rank && rank <= seen);
    }
}

#[test]
fn nothing_is_lost_while_the_pool_fills() {
    for n in 0..=15usize {
        for _ in 0..20 {
            let mut reservoir = Reservoir::<i32>::with_capacity(15);
            for it in 0..n {
                let (_, _, evicted) = reservoir.sample(it as i32);
                assert_eq!(evicted, None);
                let now = reservoir.samples();
                assert!(now[..it + 1].iter().all(|slot| slot.is_some()));
                assert!(now[it + 1..].iter().all(|slot| slot.is_none()));
            }
            let result = reservoir.lock();
            assert_eq!(result.len(), 15);
            let expected: Vec<i32> = (0..n as i32).collect();
            assert_eq!(held(&result), expected);
        }
    }
}

#[test]
fn repeated_items_are_kept_as_often_as_they_came() {
    let mut reservoir = Reservoir::<i32>::with_capacity(6);
    for it in [8, 1, 1, 9, 2] {
        let _ = reservoir.sample(it);
    }
    assert_eq!(held(&reservoir.lock()), vec![1, 1, 2, 8, 9]);
}

#[test]
fn result_never_holds_more_than_the_capacity() {
    for cap in 0..6usize {
        for n in 0..30usize {
            let mut reservoir = Reservoir::<i32>::with_capacity(cap);
            for it in 0..n {
                let _ = reservoir.sample(it as i32);
            }
            let result = reservoir.lock();
            assert_eq!(result.len(), cap);
            let count = result.iter().filter(|slot| slot.is_some()).count();
            assert_eq!(count, cap.min(n));
        }
    }
}

#[test]
fn the_evicted_item_is_the_one_that_left() {
    let mut reservoir = Reservoir::<i32>::with_capacity(3);
    for it in 0..3 {
        let _ = reservoir.sample(it);
    }
    for it in 3..200 {
        let before = held(reservoir.samples());
        let (rank, _, evicted) = reservoir.sample(it);
        let mut after = held(reservoir.samples());
        match evicted {
            Some(out) => {
                assert!(rank <= 3);
                after.retain(|x| *x != it);
                after.push(out);
                after.sort();
                assert_eq!(after, before);
            }
            None => {
                assert!(rank > 3);
                assert_eq!(after, before);
            }
        }
    }
}

#[test]
fn a_full_pool_is_locked_as_it_is() {
    let mut reservoir = Reservoir::<i32>::with_capacity(3);
    for it in 0..10 {
        let _ = reservoir.sample(it);
    }
    let before: Vec<Option<i32>> = reservoir.samples().to_vec();
    assert_eq!(reservoir.lock(), before);
}

#[test]
fn every_item_is_kept_about_equally_often() {
    let cap = 3usize;
    let n = 12usize;
    let runs = 6000usize;
    let mut kept = vec![0usize; n];
    for _ in 0..runs {
        let mut reservoir = Reservoir::<usize>::with_capacity(cap);
        for it in 0..n {
            let _ = reservoir.sample(it);
        }
        for it in reservoir.lock().into_iter().flatten() {
            kept[it] += 1;
        }
    }
    let expected = cap as f64 / n as f64;
    for count in kept {
        let share = count as f64 / runs as f64;
        assert!((share - expected).abs() < 0.05, "share {} expected {}", share, expected);
    }
}

#[test]
fn settling_spreads_the_items_over_the_pool() {
    let runs = 4000usize;
    let mut last_slot_taken = 0usize;
    for _ in 0..runs {
        let mut reservoir = Reservoir::<usize>::with_capacity(4);
        let _ = reservoir.sample(7);
        let result = reservoir.lock();
        assert_eq!(result.iter().filter(|slot| slot.is_some()).count(), 1);
        if result[3].is_some() {
            last_slot_taken += 1;
        }
    }
    let share = last_slot_taken as f64 / runs as f64;
    assert!((share - 0.25).abs() < 0.05, "share {}", share);
}
