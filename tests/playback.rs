use music_trainer::{command_accepted, PlayData, PlayState, ToFrontMsg, ToPlayMsg, NANOS_PER_MILLI};

fn ms(t: u64) -> u64 {
    t * NANOS_PER_MILLI
}

/// Note 0: two channels, three frames. Note 1: one channel, two frames.
fn player() -> PlayData<i32> {
    let samples = vec![
        vec![vec![1, 2], vec![3, 4], vec![5, 6]],
        vec![vec![10], vec![20]],
    ];
    PlayData::new(samples, vec![2, 1], 0).unwrap()
}

fn render(p: &mut PlayData<i32>, msg: Option<ToPlayMsg>, now: u64, len: usize) -> (Vec<i32>, bool) {
    let mut data = vec![-1; len];
    let r = p.render(msg, now, &mut data);
    (data, r == Some(ToFrontMsg::Finish))
}

#[test]
fn new_starts_idle() {
    let p = player();
    assert_eq!(p.state(), PlayState::Idle);
    assert_eq!(p.queue_len(), 0);
    assert_eq!(p.note_count(), 2);
}

#[test]
fn new_rejects_unusable_tables() {
    let empty_note: Vec<Vec<Vec<i32>>> = vec![vec![]];
    assert!(PlayData::new(empty_note, vec![1], 0).is_none());
    assert!(PlayData::new(vec![vec![vec![1, 2], vec![3]]], vec![2], 0).is_none());
    assert!(PlayData::new(vec![vec![vec![1]]], vec![1, 1], 0).is_none());
    assert!(PlayData::new(vec![vec![Vec::<i32>::new()]], vec![0], 0).is_none());
    assert!(PlayData::new(Vec::<Vec<Vec<i32>>>::new(), vec![], 0).is_some());
}

#[test]
fn idle_renders_silence_without_notifications() {
    let mut p = player();
    for t in 0..5 {
        let (data, fin) = render(&mut p, None, ms(t * 100), 6);
        assert_eq!(data, vec![0; 6]);
        assert!(!fin);
        assert_eq!(p.state(), PlayState::Idle);
    }
}

#[test]
fn play_writes_frames_and_advances_cursor() {
    let mut p = player();
    let (data, fin) = render(&mut p, Some(ToPlayMsg::Play(0, 1000)), ms(0), 4);
    assert_eq!(data, vec![1, 2, 3, 4]);
    assert!(!fin);
    assert_eq!(p.state(), PlayState::Playing { id: 0, start: 0, milisecs: 1000, pos: 2 });
}

#[test]
fn past_the_table_the_last_frame_repeats() {
    let mut p = player();
    let (data, _) = render(&mut p, Some(ToPlayMsg::Play(0, 1000)), ms(0), 10);
    assert_eq!(data, vec![1, 2, 3, 4, 5, 6, 5, 6, 5, 6]);
    let (data, _) = render(&mut p, None, ms(10), 4);
    assert_eq!(data, vec![5, 6, 5, 6]);
}

#[test]
fn incomplete_trailing_frame_is_silent() {
    let mut p = player();
    let (data, _) = render(&mut p, Some(ToPlayMsg::Play(0, 1000)), ms(0), 5);
    assert_eq!(data, vec![1, 2, 3, 4, 0]);
    assert_eq!(p.state(), PlayState::Playing { id: 0, start: 0, milisecs: 1000, pos: 2 });
}

#[test]
fn play_finishes_exactly_once() {
    let mut p = player();
    let (_, fin) = render(&mut p, Some(ToPlayMsg::Play(1, 500)), ms(0), 2);
    assert!(!fin);
    let (data, fin) = render(&mut p, None, ms(250), 2);
    assert!(!fin);
    assert_eq!(data, vec![20, 20]);
    let (_, fin) = render(&mut p, None, ms(500), 2);
    assert!(!fin);
    let (data, fin) = render(&mut p, None, ms(501), 2);
    assert!(fin);
    assert_eq!(data, vec![0, 0]);
    assert_eq!(p.state(), PlayState::Idle);
    for t in 6..20 {
        let (_, fin) = render(&mut p, None, ms(t * 100), 2);
        assert!(!fin);
    }
}

#[test]
fn queued_note_follows_without_gap() {
    let mut p = player();
    let mut finishes = 0;
    let (_, fin) = render(&mut p, Some(ToPlayMsg::Play(0, 500)), ms(0), 2);
    finishes += fin as u32;
    let (_, fin) = render(&mut p, Some(ToPlayMsg::PlayNext(1, 500)), ms(10), 2);
    finishes += fin as u32;
    assert_eq!(p.queue_len(), 1);
    let (data, fin) = render(&mut p, None, ms(600), 3);
    assert!(fin);
    finishes += 1;
    assert_eq!(data, vec![10, 20, 20]);
    assert_eq!(p.state(), PlayState::Playing { id: 1, start: ms(600), milisecs: 500, pos: 3 });
    assert_eq!(p.queue_len(), 0);
    for t in 7..30 {
        let (_, fin) = render(&mut p, None, ms(t * 100), 3);
        finishes += fin as u32;
    }
    assert_eq!(finishes, 2);
    assert_eq!(p.state(), PlayState::Idle);
}

#[test]
fn stop_clears_the_queue() {
    let mut p = player();
    render(&mut p, Some(ToPlayMsg::Play(0, 1000)), ms(0), 2);
    render(&mut p, Some(ToPlayMsg::PlayNext(1, 1000)), ms(10), 2);
    let (data, fin) = render(&mut p, Some(ToPlayMsg::Stop), ms(20), 4);
    assert_eq!(data, vec![0; 4]);
    assert!(!fin);
    assert_eq!(p.state(), PlayState::Idle);
    assert_eq!(p.queue_len(), 0);
    for t in 1..25 {
        let (data, fin) = render(&mut p, None, ms(t * 100), 4);
        assert!(!fin);
        assert_eq!(data, vec![0; 4]);
    }
}

#[test]
fn play_replaces_current_note_and_queue() {
    let mut p = player();
    render(&mut p, Some(ToPlayMsg::Play(0, 1000)), ms(0), 2);
    render(&mut p, Some(ToPlayMsg::PlayNext(1, 1000)), ms(10), 2);
    let (data, _) = render(&mut p, Some(ToPlayMsg::Play(1, 300)), ms(20), 2);
    assert_eq!(data, vec![10, 20]);
    assert_eq!(p.queue_len(), 0);
    assert_eq!(p.state(), PlayState::Playing { id: 1, start: ms(20), milisecs: 300, pos: 2 });
}

#[test]
fn play_next_while_idle_starts_at_once() {
    let mut p = player();
    let (data, fin) = render(&mut p, Some(ToPlayMsg::PlayNext(1, 200)), ms(5), 1);
    assert_eq!(data, vec![10]);
    assert!(!fin);
    assert_eq!(p.queue_len(), 0);
    assert_eq!(p.state(), PlayState::Playing { id: 1, start: ms(5), milisecs: 200, pos: 1 });
}

#[test]
fn unknown_note_is_ignored() {
    let mut p = player();
    let (data, fin) = render(&mut p, Some(ToPlayMsg::Play(7, 100)), ms(0), 2);
    assert_eq!(data, vec![0, 0]);
    assert!(!fin);
    assert_eq!(p.state(), PlayState::Idle);
    render(&mut p, Some(ToPlayMsg::Play(0, 100)), ms(0), 2);
    render(&mut p, Some(ToPlayMsg::PlayNext(2, 100)), ms(1), 2);
    assert_eq!(p.queue_len(), 0);
}

#[test]
fn clock_before_start_does_not_expire() {
    let mut p = player();
    render(&mut p, Some(ToPlayMsg::Play(1, 0)), ms(100), 1);
    let (_, fin) = render(&mut p, None, ms(50), 1);
    assert!(!fin);
    let (_, fin) = render(&mut p, None, ms(100) + 1, 1);
    assert!(fin);
}

#[test]
fn commands_outside_the_catalog_are_rejected() {
    assert!(command_accepted(ToPlayMsg::Play(1, 100), 2));
    assert!(!command_accepted(ToPlayMsg::Play(2, 100), 2));
    assert!(!command_accepted(ToPlayMsg::PlayNext(5, 100), 2));
    assert!(command_accepted(ToPlayMsg::PlayNext(0, 100), 2));
    assert!(command_accepted(ToPlayMsg::Stop, 0));
}
