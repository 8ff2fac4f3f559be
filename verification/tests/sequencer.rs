use bach::sequencer::{
    euclidean_sequence, ClipInst, DummyClock, MidiSequencer, SeqCall, SystemClock, TickClock,
};
use bach::units::{Duration, Note, Velocity};

#[test]
fn clip_parsing() {
    assert!("+ 1/4".parse() == Ok(ClipInst::Tick(Duration::Beats(1, 4))));
    assert!("j 10".parse() == Ok(ClipInst::Jmp(10)));
    assert!("j -1".parse() == Ok(ClipInst::Jmp(-1)));
    assert!("nop".parse() == Ok(ClipInst::Jmp(0)));
    assert!(
        "n 3 @60 ff 1/4".parse()
            == Ok(ClipInst::Call(SeqCall::QueueNote(
                3,
                Note::Raw(60),
                Velocity::Ff,
                Duration::Beats(1, 4)
            )))
    );
    assert!(
        "s 3 @42,@60 ff 1/4 10 12 2".parse()
            == Ok(ClipInst::Call(SeqCall::QueueSequence(
                3,
                vec![Note::Raw(42), Note::Raw(60)],
                Velocity::Ff,
                Duration::Beats(1, 4),
                10,
                12,
                2
            )))
    );
    assert!("cc 3 4 5".parse() == Ok(ClipInst::Call(SeqCall::QueueControl(3, 4, 5))));
}

#[test]
fn known_euclidean_sequences() {
    let euclidean_seq = |k, n, o| -> Vec<u8> {
        euclidean_sequence(k, n, o)
            .iter()
            .map(|b| if *b { 1 } else { 0 })
            .collect()
    };
    assert_eq!(euclidean_seq(0, 0, 0), vec![]);
    assert_eq!(euclidean_seq(1, 2, 0), vec![1, 0]);
    assert_eq!(euclidean_seq(2, 4, 0), vec![1, 0, 1, 0]);
    assert_eq!(euclidean_seq(2, 5, 3), vec![1, 0, 1, 0, 0]);
    assert_eq!(euclidean_seq(3, 3, 0), vec![1, 1, 1]);
    assert_eq!(euclidean_seq(3, 5, 0), vec![1, 0, 1, 0, 1]);
    assert_eq!(euclidean_seq(5, 6, 0), vec![1, 0, 1, 1, 1, 1]);
    assert_eq!(euclidean_seq(5, 8, 0), vec![1, 0, 1, 1, 0, 1, 1, 0]);
    assert_eq!(euclidean_seq(5, 8, 1), vec![0, 1, 1, 0, 1, 1, 0, 1]);
    assert_eq!(
        euclidean_seq(5, 13, 0),
        vec![1, 0, 0, 1, 0, 1, 0, 0, 1, 0, 1, 0, 0]
    );
    assert_eq!(
        euclidean_seq(7, 12, 0),
        vec![1, 0, 1, 1, 0, 1, 0, 1, 1, 0, 1, 0]
    );
}

#[test]
fn dummy_clock() {
    let c = DummyClock::default();
    assert_eq!(c.get_ticks(&Duration::Beats(1, 4)), Some(c.ppqn() as u64));
    assert_eq!(
        c.get_ticks(&Duration::Beats(2, 4)),
        Some((2 * c.ppqn()) as u64)
    );
    assert_eq!(
        c.get_ticks(&Duration::Beats(1, 8)),
        Some((c.ppqn() / 2) as u64)
    );
    assert_eq!(
        c.get_ticks(&Duration::Beats(1, 16)),
        Some((c.ppqn() / 4) as u64)
    );
    assert_eq!(c.get_ticks(&Duration::Beats(1, 192)), Some(1));
    assert_eq!(c.get_ticks(&Duration::Beats(1, 193)), Some(0));
}

#[test]
fn tick_clock() {
    let mut c = SystemClock::default();
    assert_eq!(c.get_ticks(&Duration::Beats(1, 4)), Some(c.ppqn() as u64));
    assert_eq!(
        c.get_ticks(&Duration::Beats(2, 4)),
        Some((2 * c.ppqn()) as u64)
    );
    assert_eq!(
        c.get_ticks(&Duration::Beats(1, 8)),
        Some((c.ppqn() / 2) as u64)
    );
    assert_eq!(
        c.get_ticks(&Duration::Beats(1, 16)),
        Some((c.ppqn() / 4) as u64)
    );
    assert_eq!(c.get_ticks(&Duration::Beats(1, 192)), Some(1));
    assert_eq!(c.get_ticks(&Duration::Beats(1, 193)), Some(0));

    while c.tick() < 10 {
        let (_tpm, drift) = c.await_tick();
        // Just sanity check - we can't rely on this being too precise as long as we're not
        // running a RT OS. On an unloaded system this is typically below 10, but not
        // garanteed.
        assert!(std::time::Duration::from_nanos(drift) < std::time::Duration::from_micros(2000));
    }
}

#[test]
fn one_note_dummy() {
    let mut clock = DummyClock::default();
    let mut seq = MidiSequencer::default();
    seq.queue_note(
        &clock,
        1,
        &Note::Maj(60, 0),
        &Velocity::Mf,
        &Duration::Beats(3, 4 * clock.ppqn() as u64),
    )
    .unwrap();
    assert_eq!(seq.tick(&clock), vec![0xf8, 0x91, 60, 64]);
    clock.await_tick();
    assert_eq!(seq.tick(&clock), vec![]);
    clock.await_tick();
    assert_eq!(seq.tick(&clock), vec![0xf8]);
    clock.await_tick();
    assert_eq!(seq.tick(&clock), vec![0x81, 60, 0]);
    clock.await_tick();
}

#[test]
fn one_note() {
    let mut clock = SystemClock::default();
    let mut seq = MidiSequencer::default();
    seq.queue_note(
        &clock,
        1,
        &Note::Maj(60, 0),
        &Velocity::Mf,
        &Duration::Beats(3, 4 * clock.ppqn() as u64),
    )
    .unwrap();
    assert_eq!(seq.tick(&clock), vec![0xf8, 0x91, 60, 64]);
    clock.await_tick();
    assert_eq!(seq.tick(&clock), vec![]);
    clock.await_tick();
    assert_eq!(seq.tick(&clock), vec![0xf8]);
    clock.await_tick();
    assert_eq!(seq.tick(&clock), vec![0x81, 60, 0]);
    clock.await_tick();
}

#[test]
fn one_note_no_clock() {
    let mut clock = SystemClock::default();
    let mut seq = MidiSequencer::new(false, 10);
    seq.queue_note(
        &clock,
        1,
        &Note::Maj(60, 0),
        &Velocity::Mf,
        &Duration::Beats(3, 4 * clock.ppqn() as u64),
    )
    .unwrap();
    assert_eq!(seq.tick(&clock), vec![0x91, 60, 64]);
    clock.await_tick();
    assert_eq!(seq.tick(&clock), vec![]);
    clock.await_tick();
    assert_eq!(seq.tick(&clock), vec![]);
    clock.await_tick();
    assert_eq!(seq.tick(&clock), vec![0x81, 60, 0]);
    clock.await_tick();
}

#[test]
fn one_note_fast_forward() {
    let mut clock = SystemClock::default();
    let mut seq = MidiSequencer::default();
    seq.queue_note(
        &clock,
        1,
        &Note::Maj(60, 0),
        &Velocity::Mf,
        &Duration::Beats(3, 4 * clock.ppqn() as u64),
    )
    .unwrap();
    assert_eq!(seq.tick(&clock), vec![0xf8, 0x91, 60, 64]);
    clock.forward_tick(1);
    assert_eq!(seq.tick(&clock), vec![]);
    clock.forward_tick(1);
    assert_eq!(seq.tick(&clock), vec![0xf8]);
    clock.forward_tick(1);
    assert_eq!(seq.tick(&clock), vec![0x81, 60, 0]);
    clock.forward_tick(1);
}

#[test]
fn multiple_notes() {
    let mut clock = SystemClock::default();
    let mut seq = MidiSequencer::default();
    seq.queue_note(
        &clock,
        1,
        &Note::Maj(60, 0),
        &Velocity::Mf,
        &Duration::Beats(1, clock.ppqn() as u64),
    )
    .unwrap();
    seq.queue_note(
        &clock,
        1,
        &Note::Maj(60, 1),
        &Velocity::Mf,
        &Duration::Beats(1, clock.ppqn() as u64),
    )
    .unwrap();
    assert_eq!(seq.tick(&clock), vec![0xf8, 0x91, 60, 64, 0x91, 62, 64]);
    clock.await_tick();
    seq.queue_note(
        &clock,
        1,
        &Note::Maj(60, 2),
        &Velocity::Mf,
        &Duration::Beats(1, 4 * clock.ppqn() as u64),
    )
    .unwrap();
    assert_eq!(seq.tick(&clock), vec![0x91, 64, 64]);
    clock.await_tick();
    assert_eq!(seq.tick(&clock), vec![0xf8, 0x81, 64, 0]);
    clock.await_tick();
    assert_eq!(seq.tick(&clock), vec![]);
    clock.await_tick();
    assert_eq!(seq.tick(&clock), vec![0xf8, 0x81, 60, 0, 0x81, 62, 0]);
    clock.await_tick();
}

#[test]
fn queue_sequence() {
    let mut clock = SystemClock::default();
    let mut seq = MidiSequencer::default();
    seq.queue_sequence(
        &clock,
        1,
        &[Note::Maj(60, 0), Note::Maj(60, 1), Note::Maj(60, 2)],
        &Velocity::Mf,
        &Duration::Beats(1, 4 * clock.ppqn() as u64),
        &[true, false, true, true, false, true],
        false,
    )
    .unwrap();
    assert_eq!(seq.tick(&clock), vec![0xf8, 0x91, 60, 64]);
    clock.await_tick();
    assert_eq!(seq.tick(&clock), vec![0x81, 60, 0]);
    clock.await_tick();
    assert_eq!(seq.tick(&clock), vec![0xf8, 0x91, 62, 64]);
    clock.await_tick();
    assert_eq!(seq.tick(&clock), vec![0x81, 62, 0, 0x91, 64, 64]);
    clock.await_tick();
    assert_eq!(seq.tick(&clock), vec![0xf8, 0x81, 64, 0]);
    clock.await_tick();
    assert_eq!(seq.tick(&clock), vec![0x91, 60, 64]);
    clock.await_tick();
    assert_eq!(seq.tick(&clock), vec![0xf8, 0x81, 60, 0]);
    clock.await_tick();
}

#[test]
fn already_queueing_note() {
    let mut clock = SystemClock::default();
    let mut seq = MidiSequencer::default();
    seq.queue_note(
        &clock,
        0,
        &Note::Raw(60),
        &Velocity::Raw(100),
        &Duration::Ticks(2),
    )
    .unwrap();
    assert_eq!(seq.tick(&clock), vec![0xf8, 0x90, 60, 100]);
    clock.await_tick();
    // Different channel is ok.
    seq.queue_note(
        &clock,
        1,
        &Note::Raw(60),
        &Velocity::Raw(100),
        &Duration::Ticks(10),
    )
    .unwrap();
    assert!(seq
        .queue_note(
            &clock,
            0,
            &Note::Raw(60),
            &Velocity::Raw(100),
            &Duration::Ticks(2),
        )
        .is_err());
    let _ = seq.tick(&clock);
    clock.await_tick();
    // Play on same tick as we are turning it off.
    seq.queue_note(
        &clock,
        0,
        &Note::Raw(60),
        &Velocity::Raw(101),
        &Duration::Ticks(2),
    )
    .unwrap();
    assert_eq!(seq.tick(&clock), vec![0xf8, 0x80, 60, 0, 0x90, 60, 101]);
    // Trying to cancel a limited note does not work.
    assert!(seq
        .queue_note(&clock, 1, &Note::Raw(60), &Velocity::Silent, &Duration::End)
        .is_err());
}

#[test]
fn duration_start_stop() {
    let mut clock = SystemClock::default();
    let mut seq = MidiSequencer::default();

    // Starting and immediately stopping is ok.
    seq.queue_note(
        &clock,
        0,
        &Note::Raw(60),
        &Velocity::Raw(100),
        &Duration::Begin,
    )
    .unwrap();
    seq.queue_note(&clock, 0, &Note::Raw(60), &Velocity::Raw(3), &Duration::End)
        .unwrap();

    assert_eq!(seq.tick(&clock), vec![0xf8, 0x90, 60, 100, 0x80, 60, 3]);
    clock.await_tick();

    seq.queue_note(
        &clock,
        0,
        &Note::Raw(60),
        &Velocity::Raw(101),
        &Duration::Begin,
    )
    .unwrap();

    assert_eq!(seq.tick(&clock), vec![0x90, 60, 101]);
    clock.await_tick();

    // Restarting already playing note doesn't make sense.
    assert!(seq
        .queue_note(
            &clock,
            0,
            &Note::Raw(60),
            &Velocity::Raw(101),
            &Duration::Begin,
        )
        .is_err());
    // We can stop it now.
    seq.queue_note(&clock, 0, &Note::Raw(60), &Velocity::Silent, &Duration::End)
        .unwrap();

    assert_eq!(seq.tick(&clock), vec![0xf8, 0x80, 60, 0]);
    clock.await_tick();
}

#[test]
fn stop_restart() {
    let mut clock = SystemClock::default();
    let mut seq = MidiSequencer::default();

    seq.queue_note(
        &clock,
        0,
        &Note::Raw(60),
        &Velocity::Raw(100),
        &Duration::Ticks(1),
    )
    .unwrap();

    assert_eq!(seq.tick(&clock), vec![0xf8, 0x90, 60, 100]);
    clock.await_tick();

    assert_eq!(seq.tick(&clock), vec![0x80, 60, 0]);
    clock.await_tick();

    // All notes played and stopped, nothing to stop.
    assert_eq!(seq.stop(), vec![]);
    clock.reset();

    // Restart
    seq.queue_note(
        &clock,
        0,
        &Note::Raw(60),
        &Velocity::Raw(99),
        &Duration::Ticks(10),
    )
    .unwrap();
    seq.queue_note(
        &clock,
        3,
        &Note::Raw(61),
        &Velocity::Raw(98),
        &Duration::Ticks(1),
    )
    .unwrap();
    assert_eq!(seq.tick(&clock), vec![0xf8, 0x90, 60, 99, 0x93, 61, 98]);
    clock.await_tick();

    // Turn it off.
    let stop_msgs = seq.stop();
    assert!(
        stop_msgs == vec![0x80, 60, 0, 0x83, 61, 0] || stop_msgs == vec![0x83, 61, 0, 0x80, 60, 0]
    );
}

#[test]
fn control_change() {
    let mut clock = SystemClock::default();
    let mut seq = MidiSequencer::default();

    seq.queue_note(
        &clock,
        0,
        &Note::Raw(60),
        &Velocity::Raw(100),
        &Duration::Ticks(1),
    )
    .unwrap();

    seq.queue_control(3, 5, 42).unwrap();

    assert_eq!(seq.tick(&clock), vec![0xf8, 0x90, 60, 100, 0xb3, 5, 42]);
    clock.await_tick();

    assert_eq!(seq.tick(&clock), vec![0x80, 60, 0]);
    clock.await_tick();

    seq.queue_control(0, 8, 111).unwrap();
    assert_eq!(seq.tick(&clock), vec![0xf8, 0xb0, 8, 111]);
}

#[test]
fn map_chan() {
    let mut clock = SystemClock::default();
    let mut seq = MidiSequencer::default();

    seq.queue_note(
        &clock,
        1,
        &Note::Raw(60),
        &Velocity::Raw(100),
        &Duration::Ticks(1),
    )
    .unwrap();
    seq.queue_control(2, 5, 42).unwrap();

    assert_eq!(seq.tick(&clock), vec![0xf8, 0x91, 60, 100, 0xb2, 5, 42]);
    clock.await_tick();

    // Does not affect already queued messages, e.g. stop messages are still being sent to the
    // right channel.
    seq.insert_chan_map(1, 5).unwrap();
    seq.insert_chan_map(2, 6).unwrap();

    assert_eq!(seq.tick(&clock), vec![0x81, 60, 0]);
    clock.await_tick();

    seq.queue_note(
        &clock,
        1,
        &Note::Raw(60),
        &Velocity::Raw(100),
        &Duration::Ticks(1),
    )
    .unwrap();
    seq.queue_note(
        &clock,
        1,
        &Note::Raw(61),
        &Velocity::Raw(100),
        &Duration::Ticks(2),
    )
    .unwrap();
    seq.queue_control(2, 8, 111).unwrap();

    assert_eq!(
        seq.tick(&clock),
        vec![0xf8, 0x95, 60, 100, 0x95, 61, 100, 0xb6, 8, 111]
    );
    clock.await_tick();

    assert_eq!(seq.tick(&clock), vec![0x85, 60, 0]);
    clock.await_tick();

    // Stop still gets the right channel after new mapping.
    seq.insert_chan_map(1, 1).unwrap();
    assert_eq!(seq.stop(), vec![0x85, 61, 0]);

    // Input value sanitization.
    assert!(seq.insert_chan_map(30, 3).is_err());
    assert!(seq.insert_chan_map(3, 30).is_err());
    assert!(seq.chan_map().contains_key(&1));
    assert!(seq.chan_map().contains_key(&2));
    assert!(!seq.chan_map().contains_key(&3));
    assert!(!seq.chan_map().contains_key(&30));
}
