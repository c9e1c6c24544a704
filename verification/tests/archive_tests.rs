//! Tests of the archive engine and the replay session: recording,
//! images, cursor seeks, and the session state machine.
use netidx::archive::{
    Archive, ArchiveError, BatchItem, Bound, Cursor, MonotonicTimestamper, Seek,
};
use netidx::event::Event;
use netidx::path::Path;
use netidx::replay::{apply_control, parse_pos, ControlWrite, Sessions, SessionEvent, Speed, State, StepAction};
use netidx::time::DT;
use netidx::value::Value;

fn ts(ms: i64) -> DT {
    DT { secs: ms / 1000, nanos: ((ms % 1000) * 1_000_000) as u32 }
}

fn record_counter() -> Archive {
    // record /t/c = U64(k) for k = 0..9 at 100 ms intervals
    let mut a = Archive::new();
    a.add_paths(&vec![Path::from_string("/t/c")]);
    let id = a.id_for_path(&Path::from_string("/t/c")).expect("id");
    for k in 0..10u64 {
        let batch = vec![BatchItem(id, Event::Update(Value::U64(k)))];
        a.add_batch(false, ts(100 * k as i64), batch).expect("append");
    }
    a
}

#[test]
fn archive_assigns_ids_idempotently() {
    let mut a = Archive::new();
    let p = Path::from_string("/t/x");
    a.add_paths(&vec![p.clone(), Path::from_string("/t/y"), p.clone()]);
    let id0 = a.id_for_path(&p).expect("id for /t/x");
    a.add_paths(&vec![p.clone()]);
    assert_eq!(a.id_for_path(&p), Some(id0));
    let back = a.path_for_id(id0).expect("path back");
    assert_eq!(back.bytes(), p.bytes());
    assert!(a.id_for_path(&Path::from_string("/t/z")).is_none());
}

#[test]
fn archive_refuses_regressing_timestamps() {
    let mut a = Archive::new();
    a.add_paths(&vec![Path::from_string("/t/c")]);
    a.add_batch(false, ts(1000), vec![]).expect("first");
    match a.add_batch(false, ts(500), vec![]) {
        Err(ArchiveError::NonMonotonic) => {}
        other => panic!("expected the non-monotonic refusal, got {:?}", other),
    }
    // equal timestamps are fine
    a.add_batch(false, ts(1000), vec![]).expect("same instant");
}

#[test]
fn replay_yields_batches_in_order() {
    let a = record_counter();
    let mut cur = Cursor::new();
    let got = a.read_deltas(&mut cur, 4);
    assert_eq!(got.len(), 4);
    for (k, (t, items)) in got.iter().enumerate() {
        assert_eq!(*t, ts(100 * k as i64));
        assert_eq!(items.len(), 1);
        match &items[0].1 {
            Event::Update(v) => assert!(v.eq_val(&Value::U64(k as u64))),
            _ => panic!("expected an update"),
        }
    }
    // the cursor advanced: the next read picks up after the last batch
    let more = a.read_deltas(&mut cur, 100);
    assert_eq!(more.len(), 6);
    assert_eq!(more[0].0, ts(400));
    // and a further read finds nothing new
    assert_eq!(a.read_deltas(&mut cur, 100).len(), 0);
}

#[test]
fn replay_respects_window_bounds() {
    let a = record_counter();
    let mut cur = Cursor::new();
    cur.set_start(Bound::Inclusive(ts(300)));
    cur.set_end(Bound::Exclusive(ts(600)));
    let got = a.read_deltas(&mut cur, 100);
    assert_eq!(got.len(), 3);
    assert_eq!(got[0].0, ts(300));
    assert_eq!(got[2].0, ts(500));
}

#[test]
fn image_is_the_fold_of_the_deltas() {
    let a = record_counter();
    let mut cur = Cursor::new();
    cur.set_current(ts(450));
    let img = a.build_image(&cur);
    // one id, holding the last update at or before the position
    assert_eq!(img.len(), 1);
    match &img[0].1 {
        Event::Update(v) => assert!(v.eq_val(&Value::U64(4))),
        _ => panic!("expected an update"),
    }
}

#[test]
fn full_images_replace_the_picture() {
    let mut a = Archive::new();
    a.add_paths(&vec![Path::from_string("/t/a"), Path::from_string("/t/b")]);
    let ia = a.id_for_path(&Path::from_string("/t/a")).unwrap();
    let ib = a.id_for_path(&Path::from_string("/t/b")).unwrap();
    a.add_batch(false, ts(0), vec![BatchItem(ia, Event::Update(Value::U32(1)))])
        .unwrap();
    // a full image at 100 ms carries only /t/b: /t/a is gone after it
    a.add_batch(true, ts(100), vec![BatchItem(ib, Event::Update(Value::U32(9)))])
        .unwrap();
    let mut cur = Cursor::new();
    cur.set_current(ts(200));
    let img = a.build_image(&cur);
    assert_eq!(img.len(), 1);
    assert_eq!(img[0].0, ib);
}

#[test]
fn seek_steps_batches_and_recomputes_the_image() {
    // set pos = +1 while paused: one batch forward; the image shows it
    let a = record_counter();
    let mut cur = Cursor::new();
    a.seek(&mut cur, Seek::BatchRelative(1));
    assert_eq!(cur.current, Some(ts(0)));
    a.seek(&mut cur, Seek::BatchRelative(1));
    assert_eq!(cur.current, Some(ts(100)));
    let img = a.build_image(&cur);
    match &img[0].1 {
        Event::Update(v) => assert!(v.eq_val(&Value::U64(1))),
        _ => panic!("expected an update"),
    }
    // step back: the image is recomputed at the earlier batch
    a.seek(&mut cur, Seek::BatchRelative(-1));
    assert_eq!(cur.current, Some(ts(0)));
    a.seek(&mut cur, Seek::End);
    assert_eq!(cur.current, Some(ts(900)));
    a.seek(&mut cur, Seek::Beginning);
    assert_eq!(cur.current, None);
    a.seek(&mut cur, Seek::Absolute(ts(300)));
    assert_eq!(cur.current, Some(ts(300)));
}

#[test]
fn timestamper_never_regresses() {
    let mut t = MonotonicTimestamper::new(ts(1000));
    // the clock went backwards: the issue is the last instant plus 1 us
    let r = t.timestamp(ts(500));
    assert_eq!(r, DT { secs: 1, nanos: 1000 });
    // the clock advanced: the reading is taken as is
    let r2 = t.timestamp(ts(2000));
    assert_eq!(r2, ts(2000));
}

#[test]
fn recorder_splits_oversized_batches() {
    let mut batch: Vec<BatchItem> = Vec::new();
    for k in 0..10u64 {
        batch.push(BatchItem(0, Event::Update(Value::U64(k))));
    }
    let rest = netidx::recorder::split_batch(&mut batch);
    assert_eq!(batch.len(), 5);
    assert_eq!(rest.len(), 5);
    assert_eq!(rest[0].0, 0);
    assert!(netidx::recorder::image_due(100, 0, 64));
    assert!(!netidx::recorder::image_due(100, 50, 64));
    assert!(!netidx::recorder::image_due(100, 0, 0));
    assert!(netidx::recorder::flush_due(10, 0, 10));
}

#[test]
fn session_state_machine_follows_the_table() {
    // the transition table: asked-for states are taken; exhaustion
    // tails only from play; leaving tail for play seeks to end first
    let s = State::Pause;
    assert_eq!(s.step(SessionEvent::SetState(State::Play)), (State::Play, StepAction::Stay));
    assert_eq!(s.step(SessionEvent::BatchExhausted).0, State::Pause);
    let p = State::Play;
    assert_eq!(p.step(SessionEvent::BatchExhausted).0, State::Tail);
    assert_eq!(p.step(SessionEvent::SetState(State::Tail)).0, State::Tail);
    let t = State::Tail;
    assert_eq!(t.step(SessionEvent::SetState(State::Pause)), (State::Pause, StepAction::Stay));
    assert_eq!(
        t.step(SessionEvent::SetState(State::Play)),
        (State::Play, StepAction::SeekEnd)
    );
    assert_eq!(t.step(SessionEvent::BatchExhausted).0, State::Tail);
    assert!(State::Play.play());
    assert!(!State::Tail.play());
}

#[test]
fn state_text_maps_pause_to_pause() {
    assert_eq!(State::from_text("play"), Some(State::Play));
    assert_eq!(State::from_text("pause"), Some(State::Pause));
    assert_eq!(State::from_text("tail"), Some(State::Tail));
    assert_eq!(State::from_text("nonsense"), None);
}

#[test]
fn replay_speed_scales_the_gaps() {
    // at speed 2.0, 100 ms recording gaps replay roughly 50 ms apart
    let sp = Speed::Limited { rate_thousandths: 2000 };
    assert_eq!(netidx::replay::next_delay_ms(&sp, 100), 50);
    assert_eq!(netidx::replay::next_delay_ms(&Speed::Unlimited, 100), 0);
    assert_eq!(
        netidx::replay::next_delay_ms(&Speed::Limited { rate_thousandths: 0 }, 100),
        u64::MAX
    );
}

#[test]
fn session_limits_are_enforced_on_admission() {
    let mut s = Sessions::new(3, 2);
    assert!(s.add_session(1));
    assert!(s.add_session(1));
    // the per-client cap
    assert!(!s.add_session(1));
    assert!(s.add_session(2));
    // the global cap
    assert!(!s.add_session(3));
    s.delete_session(1);
    assert!(s.add_session(3));
}

#[test]
fn control_writes_apply_per_the_session_rules() {
    let a = record_counter();
    let mut cur = Cursor::new();
    a.seek(&mut cur, Seek::End);
    assert_eq!(cur.current, Some(ts(900)));
    // narrowing the start past the position rewinds to the beginning
    let (st, sp) = apply_control(
        &a,
        &mut cur,
        State::Pause,
        Speed::Unlimited,
        ControlWrite::SetStart(Bound::Inclusive(ts(1_000_000))),
    );
    assert_eq!((st, sp), (State::Pause, Speed::Unlimited));
    assert_eq!(cur.current, None);
    // a position write while tailing resumes play
    let mut cur2 = Cursor::new();
    let (st2, _) = apply_control(
        &a,
        &mut cur2,
        State::Tail,
        Speed::Unlimited,
        ControlWrite::SeekTo(Seek::BatchRelative(1)),
    );
    assert_eq!(st2, State::Play);
    assert_eq!(cur2.current, Some(ts(0)));
    // leaving tail for play seeks to the end first
    let mut cur3 = Cursor::new();
    let (st3, _) = apply_control(
        &a,
        &mut cur3,
        State::Tail,
        Speed::Unlimited,
        ControlWrite::SetState(State::Play),
    );
    assert_eq!(st3, State::Play);
    assert_eq!(cur3.current, Some(ts(900)));
    // a speed write only changes the speed
    let (st4, sp4) = apply_control(
        &a,
        &mut cur3,
        State::Play,
        Speed::Unlimited,
        ControlWrite::SetSpeed(Speed::Limited { rate_thousandths: 2000 }),
    );
    assert_eq!(st4, State::Play);
    assert_eq!(sp4, Speed::Limited { rate_thousandths: 2000 });
}

#[test]
fn pos_writes_parse_per_the_control_surface() {
    assert_eq!(parse_pos("beginning"), Some(Seek::Beginning));
    assert_eq!(parse_pos(" End "), Some(Seek::End));
    assert_eq!(parse_pos("+1"), Some(Seek::BatchRelative(1)));
    assert_eq!(parse_pos("-3"), Some(Seek::BatchRelative(-3)));
    assert_eq!(parse_pos("-1u"), Some(Seek::TimeRelative(-1_000)));
    assert_eq!(parse_pos("+2s"), Some(Seek::TimeRelative(2_000_000_000)));
    assert_eq!(parse_pos("-1h"), Some(Seek::TimeRelative(-3_600_000_000_000)));
    match parse_pos("2012-12-12T12:12:12Z") {
        Some(Seek::Absolute(t)) => assert_eq!(t.secs, 1355314332),
        other => panic!("expected an absolute seek, got {:?}", other),
    }
    assert_eq!(parse_pos("+x"), None);
    assert_eq!(parse_pos("sideways"), None);
}
