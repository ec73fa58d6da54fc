use choosen::lottery::award;
use choosen::{BuildChoosenError, ChoosenBuilder, ChoosenError, Position, PositionType};

fn position(name: &str, cap: usize) -> Position {
    let mut pos = Position::default();
    let _ = pos.set_name(name);
    let _ = pos.set_cap(cap);
    pos
}

#[test]
fn have_something_choosen() -> Result<(), BuildChoosenError> {
    let v = vec![8, 1, 1, 9, 2];
    let mut choosen = ChoosenBuilder::<Position>::new()
        .add_position("一等奖", 1)?
        .add_position("二等奖", 1)?
        .add_position("三等奖", 4)?
        .build::<usize>()?;

    for it in v {
        choosen.poll_one(it);
        println!("{:?}", choosen.lucky());
    }

    println!("{:?}", choosen.release().unwrap());
    Ok(())
}

#[test]
fn have_nothhing_choosen() -> Result<(), BuildChoosenError> {
    let choosen = ChoosenBuilder::<Position>::new()
        .add_position("一等奖", 3)?
        .add_position("三等奖", 4)?
        .build::<usize>()?;

    assert_eq!(choosen.release().err(), Some(ChoosenError::NoOneIsChoosen));

    Ok(())
}

#[test]
fn five_candidates_for_six_places_all_win_once() -> Result<(), BuildChoosenError> {
    for _ in 0..200 {
        let mut choosen = ChoosenBuilder::<Position>::new()
            .add_position("first", 1)?
            .add_position("second", 1)?
            .add_position("third", 4)?
            .build::<usize>()?;
        for it in [8, 1, 1, 9, 2] {
            let (rank, seen, evicted) = choosen.poll_one(it);
            assert!(1 <= rank && rank <= seen);
            assert_eq!(evicted, None);
        }
        let result = choosen.release().unwrap();
        assert_eq!(result.len(), 3);
        assert_eq!(result[0].0, "first");
        assert_eq!(result[1].0, "second");
        assert_eq!(result[2].0, "third");
        assert!(result[0].1.len() <= 1);
        assert!(result[1].1.len() <= 1);
        assert!(result[2].1.len() <= 4);
        let mut all: Vec<usize> = Vec::new();
        for (_, winners) in &result {
            all.extend(winners.iter().copied());
        }
        assert_eq!(all.len(), 5);
        all.sort();
        assert_eq!(all, vec![1, 1, 2, 8, 9]);
    }
    Ok(())
}

#[test]
fn no_candidate_no_release() -> Result<(), BuildChoosenError> {
    let choosen = ChoosenBuilder::<Position>::new()
        .add_position("first", 3)?
        .add_position("third", 4)?
        .build::<usize>()?;
    assert_eq!(choosen.lucky().len(), 7);
    assert_eq!(choosen.release().err(), Some(ChoosenError::NoOneIsChoosen));
    Ok(())
}

#[test]
fn one_candidate_is_enough_to_release() -> Result<(), BuildChoosenError> {
    let mut choosen = ChoosenBuilder::<Position>::new()
        .add_position("first", 3)?
        .add_position("third", 4)?
        .build::<usize>()?;
    assert_eq!(choosen.poll_one(42), (1, 1, None));
    let result = choosen.release().unwrap();
    assert_eq!(result.len(), 2);
    let total: usize = result.iter().map(|(_, winners)| winners.len()).sum();
    assert_eq!(total, 1);
    Ok(())
}

#[test]
fn award_splits_the_slots_at_the_capacities() {
    let positions = vec![position("first", 1), position("second", 2), position("third", 3)];
    let slots = vec![Some(10), None, Some(30), Some(40), None, Some(60)];
    let result = award(positions, slots).unwrap();
    assert_eq!(
        result,
        vec![
            ("first".to_string(), vec![10]),
            ("second".to_string(), vec![30]),
            ("third".to_string(), vec![40, 60]),
        ]
    );
}

#[test]
fn award_reports_a_position_without_winners() {
    let positions = vec![position("first", 2), position("second", 1), position("third", 2)];
    let slots = vec![None, None, None, Some(4), Some(5)];
    let result = award(positions, slots).unwrap();
    assert_eq!(
        result,
        vec![
            ("first".to_string(), vec![]),
            ("second".to_string(), vec![]),
            ("third".to_string(), vec![4, 5]),
        ]
    );
}

#[test]
fn award_fails_when_every_slot_is_empty() {
    let positions = vec![position("first", 1), position("second", 2)];
    let slots: Vec<Option<u8>> = vec![None, None, None];
    assert_eq!(award(positions, slots), Err(ChoosenError::NoOneIsChoosen));
}

#[test]
fn more_candidates_than_places_fill_every_place() -> Result<(), BuildChoosenError> {
    let mut choosen = ChoosenBuilder::<Position>::new()
        .add_position("first", 1)?
        .add_position("second", 2)?
        .build::<usize>()?;
    for it in 0..50usize {
        let (rank, seen, evicted) = choosen.poll_one(it);
        assert_eq!(seen, it + 1);
        assert!(1 <= rank && rank <= seen);
        if it >= 3 {
            assert_eq!(evicted.is_some(), rank <= 3);
        }
    }
    let before: Vec<Option<usize>> = choosen.lucky().to_vec();
    let result = choosen.release().unwrap();
    assert_eq!(result[0].1, vec![before[0].unwrap()]);
    assert_eq!(result[1].1, vec![before[1].unwrap(), before[2].unwrap()]);
    Ok(())
}
