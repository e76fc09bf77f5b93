use music_trainer::{
    available, fixed_range, Direction, DistinguishIntervalState, ToPlayMsg, INTERVAL_NOTE_MILLIS,
};

#[test]
fn direction_defaults_to_up() {
    assert_eq!(Direction::default(), Direction::Up);
}

#[test]
fn available_keeps_ticked_choices_in_order() {
    let choices: Vec<usize> = (0..5).collect();
    assert_eq!(available(&choices, &vec![true, false, true, false, true]), vec![0, 2, 4]);
    assert_eq!(available(&choices, &vec![false; 5]), Vec::<usize>::new());
    assert_eq!(available(&vec![7, 8, 9], &vec![true, true]), vec![7, 8]);
    assert_eq!(available(&vec![7], &vec![true, true]), vec![7]);
}

#[test]
fn fixed_range_leaves_room_for_the_interval() {
    assert_eq!(fixed_range(Direction::Up, 12, 32), (0, 20));
    assert_eq!(fixed_range(Direction::Down, 12, 32), (12, 32));
    assert_eq!(fixed_range(Direction::Rand, 12, 32), (12, 20));
}

#[test]
fn fresh_session_has_everything_ticked() {
    let s = DistinguishIntervalState::fresh(13);
    assert_eq!((s.correct, s.wrong), (0, 0));
    assert_eq!(s.id, None);
    assert_eq!(s.last, None);
    assert_eq!(s.dir, Direction::Up);
    assert_eq!(s.fixed, None);
    assert_eq!(s.ticked, vec![true; 13]);
}

#[test]
fn questions_follow_direction_and_fixed_note() {
    let mut s = DistinguishIntervalState::fresh(13);
    let avail = vec![3, 4, 7];
    s.next_question(&avail, 1, 10, false);
    assert_eq!(s.id, Some((4, 10, 14)));
    s.set_dir(Direction::Down);
    s.next_question(&avail, 2, 10, true);
    assert_eq!(s.id, Some((7, 17, 10)));
    s.set_dir(Direction::Rand);
    s.next_question(&avail, 0, 5, true);
    assert_eq!(s.id, Some((3, 5, 8)));
    s.next_question(&avail, 0, 5, false);
    assert_eq!(s.id, Some((3, 8, 5)));
    s.fixed = Some(2);
    s.set_dir(Direction::Rand);
    assert_eq!(s.fixed, Some(2));
    s.next_question(&avail, 0, 20, true);
    assert_eq!(s.id, Some((3, 2, 5)));
    s.set_dir(Direction::Up);
    assert_eq!(s.fixed, None);
    s.set_dir(Direction::Down);
    s.fixed = Some(10);
    s.next_question(&avail, 1, 0, true);
    assert_eq!(s.id, Some((4, 10, 6)));
}

#[test]
fn downward_question_from_top_fixed_note_stays_in_catalog() {
    let mut rng = rand::rngs::ThreadRng::default();
    let mut s = DistinguishIntervalState::fresh(13);
    s.set_dir(Direction::Down);
    let avail = vec![1];
    let (lo, hi) = fixed_range(Direction::Down, 1, 32);
    assert_eq!((lo, hi), (1, 32));
    s.fixed = Some(hi - 1);
    s.draw_question(&avail, 32, &mut rng);
    assert_eq!(s.id, Some((1, 31, 30)));
    assert_eq!(s.fixed, Some(31));
    let avail = vec![12, 5];
    s.draw_question(&avail, 32, &mut rng);
    let (i, a, b) = s.id.unwrap();
    assert_eq!(a, 31);
    assert_eq!(b, 31 - i);
}

#[test]
fn fixed_note_without_room_is_dropped() {
    let mut rng = rand::rngs::ThreadRng::default();
    let mut s = DistinguishIntervalState::fresh(13);
    s.fixed = Some(31);
    s.draw_question(&vec![3], 32, &mut rng);
    assert_eq!(s.fixed, None);
    let (i, a, b) = s.id.unwrap();
    assert_eq!((i, b), (3, a + 3));
    assert!(b < 32);
}

#[test]
fn question_commands_play_then_queue() {
    let mut s = DistinguishIntervalState::fresh(13);
    assert_eq!(s.question_commands(), None);
    s.next_question(&vec![5], 0, 1, true);
    assert_eq!(
        s.question_commands(),
        Some((
            ToPlayMsg::Play(1, INTERVAL_NOTE_MILLIS),
            ToPlayMsg::PlayNext(6, INTERVAL_NOTE_MILLIS)
        ))
    );
    assert_eq!(INTERVAL_NOTE_MILLIS, 500);
}

#[test]
fn answers_are_graded_and_recorded() {
    let mut s = DistinguishIntervalState::fresh(13);
    s.next_question(&vec![5], 0, 1, true);
    s.answer(5);
    assert_eq!((s.correct, s.wrong), (1, 0));
    assert_eq!(s.last, Some((true, 5, 1, 6)));
    assert_eq!(s.id, None);
    s.next_question(&vec![4], 0, 2, true);
    s.answer(3);
    assert_eq!((s.correct, s.wrong), (1, 1));
    assert_eq!(s.last, Some((false, 4, 2, 6)));
    s.reset();
    assert_eq!((s.correct, s.wrong), (0, 0));
    assert_eq!(s.last, None);
}

#[test]
fn drawn_questions_stay_in_range() {
    let avail = vec![3, 4, 7];
    let mut rng = rand::rngs::ThreadRng::default();
    let mut s = DistinguishIntervalState::fresh(13);
    for _ in 0..100 {
        s.draw_question(&avail, 32, &mut rng);
        let (i, a, b) = s.id.unwrap();
        assert!(avail.contains(&i));
        assert_eq!(b, a + i);
        assert!(b < 32);
    }
    s.set_dir(Direction::Down);
    s.fixed = Some(20);
    for _ in 0..100 {
        s.draw_question(&avail, 32, &mut rng);
        let (i, a, b) = s.id.unwrap();
        assert!(avail.contains(&i));
        assert_eq!((a, b), (20, 20 - i));
    }
    s.set_dir(Direction::Rand);
    let mut ups = 0;
    for _ in 0..200 {
        s.draw_question(&avail, 32, &mut rng);
        let (i, a, b) = s.id.unwrap();
        assert!(a + i == b || b + i == a);
        assert!(a.max(b) < 32);
        if a < b {
            ups += 1;
        }
    }
    assert!(ups > 0 && ups < 200);
}
