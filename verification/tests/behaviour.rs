use bach::midi::MidiMsg;
use bach::sequencer::{
    euclidean_sequence, ClipInst, DummyClock, MidiSequencer, SeqCall, SystemClock, TickClock,
    TickClockBase,
};
use bach::units::{Duration, Note, Velocity};

fn parse_clip(s: &str) -> Result<ClipInst, String> {
    s.parse()
}

#[test]
fn clip_text_round_trip() {
    let clips = vec![
        ClipInst::Tick(Duration::Beats(1, 4)),
        ClipInst::Tick(Duration::Ticks(7)),
        ClipInst::Jmp(-20),
        ClipInst::Jmp(0),
        ClipInst::Call(SeqCall::QueueNote(3, Note::Raw(60), Velocity::Ff, Duration::Begin)),
        ClipInst::Call(SeqCall::QueueNote(9, Note::Dor(62, -3), Velocity::Silent, Duration::End)),
        ClipInst::Call(SeqCall::QueueSequence(
            3,
            vec![Note::Raw(42), Note::Blues(60, 3)],
            Velocity::Pp,
            Duration::Beats(1, 8),
            5,
            8,
            1,
        )),
        ClipInst::Call(SeqCall::QueueControl(15, 127, 0)),
        ClipInst::Call(SeqCall::QueueNote(2, Note::Raw(64), Velocity::Raw(100), Duration::Ticks(3))),
        ClipInst::Call(SeqCall::QueueSequence(
            1,
            vec![Note::Raw(40)],
            Velocity::Raw(0),
            Duration::Beats(1, 16),
            3,
            8,
            0,
        )),
    ];
    for c in clips {
        assert_eq!(parse_clip(&c.to_string()), Ok(c));
    }
}

#[test]
fn clip_text_forms() {
    assert_eq!(ClipInst::Tick(Duration::Beats(1, 4)).to_string(), "+ 1/4");
    assert_eq!(ClipInst::Jmp(-1).to_string(), "j -1");
    assert_eq!(
        ClipInst::Call(SeqCall::QueueNote(3, Note::Raw(60), Velocity::Ff, Duration::Beats(1, 4)))
            .to_string(),
        "n 3 @60 ff 1/4"
    );
    assert_eq!(
        ClipInst::Call(SeqCall::QueueSequence(
            3,
            vec![Note::Raw(42), Note::Raw(60)],
            Velocity::Ff,
            Duration::Beats(1, 4),
            10,
            12,
            2
        ))
        .to_string(),
        "s 3 @42,@60 ff 1/4 10 12 2"
    );
    assert_eq!(ClipInst::Call(SeqCall::QueueControl(3, 4, 5)).to_string(), "cc 3 4 5");
}

#[test]
fn clip_parse_errors() {
    assert_eq!(parse_clip("n 1 @60 ff"), Err("'n' requires 4 arguments".to_string()));
    assert_eq!(parse_clip("s 1 @60 ff 1/4 1 2"), Err("'s' requires 7 arguments".to_string()));
    assert_eq!(parse_clip("cc 1 2"), Err("'cc' requires 3 arguments".to_string()));
    assert_eq!(parse_clip("x 1"), Err("unknown instruction: x 1".to_string()));
    assert_eq!(parse_clip(""), Err("unknown instruction: ".to_string()));
    assert!(parse_clip("+ 1/x").is_err());
    assert!(parse_clip("j abc").is_err());
    assert!(parse_clip("n 300 @60 ff 1/4").is_err());
    assert!(parse_clip("n 1 maj@60 ff 1/4").is_err());
    assert!(parse_clip("s 3 @42,bad ff 1/4 10 12 2").is_err());
    assert!(parse_clip("cc 1 2 256").is_err());
    // Arguments beyond the required ones are ignored; letter case of velocities is not.
    assert_eq!(parse_clip("cc 1 2 3 4"), Ok(ClipInst::Call(SeqCall::QueueControl(1, 2, 3))));
    assert_eq!(
        parse_clip("n 1 @60 FF 1/4"),
        Ok(ClipInst::Call(SeqCall::QueueNote(1, Note::Raw(60), Velocity::Ff, Duration::Beats(1, 4))))
    );
}

#[test]
fn unit_texts() {
    assert_eq!(Note::Maj(60, -1).to_string(), "maj@60:-1");
    assert_eq!(Note::Raw(-5).to_string(), "@-5");
    assert_eq!(Velocity::Raw(7).to_string(), "@7");
    assert_eq!(Velocity::Silent.to_string(), "-");
    assert_eq!(Duration::Ticks(12).to_string(), "12t");
    assert_eq!(Duration::Begin.to_string(), "*");
    assert_eq!("1/x".parse::<Duration>().is_err(), true);
    assert_eq!(Duration::parse("abc"), Err("invalid duration: abc".to_string()));
    assert_eq!(Velocity::parse("loud"), Err("unknown velocity: loud".to_string()));
    assert_eq!(Velocity::parse("MF"), Ok(Velocity::Mf));
    assert_eq!(Velocity::parse("@100"), Ok(Velocity::Raw(100)));
    assert_eq!("@255".parse::<Velocity>(), Ok(Velocity::Raw(255)));
    assert_eq!(Velocity::parse("@256"), Err("unknown velocity: @256".to_string()));
    assert_eq!(Velocity::parse("@"), Err("unknown velocity: @".to_string()));
    assert_eq!(
        parse_clip("n 1 @60 @90 1/4"),
        Ok(ClipInst::Call(SeqCall::QueueNote(1, Note::Raw(60), Velocity::Raw(90), Duration::Beats(1, 4))))
    );
    assert_eq!(Note::parse("xyz@60:1"), Err("unknown note: xyz@60:1".to_string()));
    assert!("maj@60".parse::<Note>().is_err());
    assert_eq!(Note::Raw(-1).to_midi(), Err("invalid note: @-1".to_string()));
    assert_eq!(Note::Maj(127, 1).to_midi(), Err("invalid note: maj@127:1".to_string()));
}

#[test]
fn midi_encoding() {
    assert_eq!(MidiMsg::NoteOn(1, 60, 64).to_midi(10), vec![0x91, 60, 64]);
    assert_eq!(MidiMsg::Clock.to_midi(10), vec![0xf8]);
    assert_eq!(MidiMsg::Clock.to_midi(20), Vec::<u8>::new());
    assert_eq!(MidiMsg::NoteOn(1, 60, 64).to_midi(20), vec![0x41, 0x91, 60, 64, 64, 0, 0, 0]);
    assert_eq!(MidiMsg::NoteOff(2, 61, 3).to_midi20(), vec![0x42, 0x82, 61, 3, 3, 0, 0, 0]);
    assert_eq!(MidiMsg::Cc(3, 7, 100).to_midi20(), vec![0x43, 0xb3, 7, 0, 0, 100, 100, 100]);
}

#[test]
fn clock_every_period() {
    // 48 pulses per quarter note: a MIDI clock (24 per quarter note) every 2 ticks.
    let clock = DummyClock::default();
    let mut seq = MidiSequencer::default();
    let mut clocks = 0;
    for _ in 0..48 {
        if seq.tick(&clock) == vec![0xf8] {
            clocks += 1;
        }
    }
    assert_eq!(clocks, 24);
    let fine = SystemClock::new(120, 96);
    assert_eq!(fine.ppqn(), 96);
    assert_eq!(fine.bpm, 120);
    let _base = TickClockBase::new(24);
}

#[test]
fn clock_elapsed() {
    let mut clock = DummyClock::default();
    clock.forward_tick(48);
    assert_eq!(clock.tick(), 48);
    assert_eq!(clock.elapsed(4), (Duration::Beats(1, 4), 0));
    assert_eq!(clock.elapsed(8), (Duration::Beats(2, 8), 0));
    assert_eq!(clock.get_ticks(&Duration::Begin), None);
    assert_eq!(clock.get_ticks(&Duration::End), Some(0));
    assert_eq!(clock.await_tick(), (0, 0));
    clock.reset();
    assert_eq!(clock.tick(), 0);
}

#[test]
fn sequencer_errors() {
    let clock = DummyClock::default();
    let mut seq = MidiSequencer::new(false, 10);
    assert_eq!(seq.queue_control(16, 1, 1), Err("invalid channel: 16".to_string()));
    assert_eq!(seq.queue_control(1, 128, 1), Err("invalid control: 128".to_string()));
    assert_eq!(seq.queue_control(1, 1, 200), Err("invalid value: 200".to_string()));
    assert_eq!(
        seq.queue_note(&clock, 16, &Note::Raw(60), &Velocity::Mf, &Duration::Ticks(1)),
        Err("invalid channel: 16".to_string())
    );
    assert_eq!(
        seq.queue_note(&clock, 1, &Note::Raw(-3), &Velocity::Mf, &Duration::Ticks(1)),
        Err("invalid note: @-3".to_string())
    );
    assert_eq!(
        seq.queue_note(&clock, 1, &Note::Raw(60), &Velocity::Raw(200), &Duration::Ticks(1)),
        Err("invalid velocity: 200".to_string())
    );
    seq.queue_note(&clock, 1, &Note::Raw(60), &Velocity::Mf, &Duration::Ticks(4)).unwrap();
    assert_eq!(
        seq.queue_note(&clock, 1, &Note::Raw(60), &Velocity::Mf, &Duration::Begin),
        Err("already allocated note: 60".to_string())
    );
    assert_eq!(
        seq.queue_note(&clock, 1, &Note::Raw(60), &Velocity::Mf, &Duration::End),
        Err("cannot stop limited note: 60".to_string())
    );
    assert_eq!(seq.insert_chan_map(16, 1), Err("invalid channel: 16".to_string()));
    assert_eq!(seq.insert_chan_map(1, 16), Err("invalid channel: 16".to_string()));
    // Failed calls change nothing: only the first note is queued.
    assert_eq!(seq.tick(&clock), vec![0x91, 60, 64]);
}

#[test]
fn sequence_skips_allocated() {
    let clock = DummyClock::default();
    let mut seq = MidiSequencer::new(false, 10);
    seq.queue_note(&clock, 0, &Note::Raw(60), &Velocity::Mf, &Duration::Begin).unwrap();
    // The first pulse's note is allocated: skipped when asked, an error otherwise.
    seq.queue_sequence(
        &clock,
        0,
        &[Note::Raw(60), Note::Raw(62)],
        &Velocity::P,
        &Duration::Ticks(1),
        &[true, true],
        true,
    )
    .unwrap();
    assert_eq!(seq.tick(&clock), vec![0x90, 60, 64]);
    assert_eq!(seq.tick(&clock), vec![0x90, 62, 42]);
    assert_eq!(seq.tick(&clock), vec![0x80, 62, 0]);
    let mut seq = MidiSequencer::new(false, 10);
    seq.queue_note(&clock, 0, &Note::Raw(60), &Velocity::Mf, &Duration::Begin).unwrap();
    assert_eq!(
        seq.queue_sequence(
            &clock,
            0,
            &[Note::Raw(60)],
            &Velocity::P,
            &Duration::Ticks(1),
            &[true],
            false,
        ),
        Err("already allocated note: 60".to_string())
    );
}

#[test]
fn apply_calls() {
    let clock = DummyClock::default();
    let mut seq = MidiSequencer::new(false, 10);
    seq.apply(
        &clock,
        &SeqCall::QueueSequence(2, vec![Note::Raw(50)], Velocity::Mf, Duration::Ticks(1), 1, 2, 0),
        false,
    )
    .unwrap();
    seq.apply(&clock, &SeqCall::QueueControl(2, 7, 9), false).unwrap();
    assert_eq!(seq.tick(&clock), vec![0x92, 50, 64, 0xb2, 7, 9]);
    assert_eq!(seq.tick(&clock), vec![0x82, 50, 0]);
    seq.apply(&clock, &SeqCall::QueueNote(2, Note::Raw(51), Velocity::F, Duration::Ticks(1)), false)
        .unwrap();
    assert_eq!(seq.tick(&clock), vec![0x92, 51, 80]);
}

#[test]
fn tick_and_forward_until() {
    let mut clock = DummyClock::default();
    let mut seq = MidiSequencer::default();
    seq.queue_note(&clock, 0, &Note::Raw(60), &Velocity::Mf, &Duration::Ticks(3)).unwrap();
    let mut sent: Vec<Vec<u8>> = vec![];
    seq.tick_until(&mut clock, &Duration::Ticks(4), &mut |b: &[u8]| {
        sent.push(b.to_vec());
        true
    });
    assert_eq!(sent, vec![vec![0xf8, 0x90, 60, 64], vec![], vec![0xf8], vec![0x80, 60, 0]]);
    assert_eq!(seq.tick, 4);
    assert_eq!(clock.tick(), 4);
    // Stops as soon as the callback refuses.
    let mut calls = 0;
    seq.tick_until(&mut clock, &Duration::Ticks(10), &mut |_b: &[u8]| {
        calls += 1;
        false
    });
    assert_eq!(calls, 1);
    assert_eq!(seq.tick, 5);
    let mut count = 0;
    seq.forward_until(&mut clock, &Duration::Beats(1, 4), &mut |_b: &[u8]| count += 1);
    assert_eq!(count, 48);
    assert_eq!(seq.tick, 53);
    assert_eq!(clock.tick(), 53);
}

#[test]
fn stop_begin_notes() {
    let clock = DummyClock::default();
    let mut seq = MidiSequencer::new(false, 20);
    seq.queue_note(&clock, 4, &Note::Raw(70), &Velocity::Mf, &Duration::Begin).unwrap();
    assert_eq!(seq.tick(&clock), vec![0x44, 0x94, 70, 64, 64, 0, 0, 0]);
    assert_eq!(seq.stop(), vec![0x44, 0x84, 70, 0, 0, 0, 0, 0]);
    assert_eq!(seq.tick, 0);
    assert_eq!(seq.stop(), Vec::<u8>::new());
}

#[test]
fn readiness_checks() {
    let clock = DummyClock::default();
    let seq = MidiSequencer::default();
    assert!(seq.can_apply(&clock, &SeqCall::QueueNote(0, Note::Raw(1), Velocity::Mf, Duration::Begin)));
    assert!(!seq.can_apply(&clock, &SeqCall::QueueNote(0, Note::Raw(1), Velocity::Mf, Duration::Beats(1, 0))));
    assert!(!seq.can_apply(
        &clock,
        &SeqCall::QueueSequence(0, vec![Note::Raw(1)], Velocity::Mf, Duration::Begin, 1, 2, 0)
    ));
    assert!(!seq.can_apply(
        &clock,
        &SeqCall::QueueSequence(0, vec![Note::Raw(1)], Velocity::Mf, Duration::Ticks(1), 3, 2, 0)
    ));
    assert!(!seq.can_apply(
        &clock,
        &SeqCall::QueueSequence(0, vec![], Velocity::Mf, Duration::Ticks(1), 1, 2, 0)
    ));
    assert_eq!(seq.can_tick_until(&clock, &Duration::Beats(1, 4)), Some(48));
    assert_eq!(seq.can_tick_until(&clock, &Duration::Begin), None);
    // An unknown MIDI version only matters once a message has to be encoded.
    let odd = MidiSequencer::new(true, 30);
    assert_eq!(odd.can_tick_until(&clock, &Duration::Ticks(0)), Some(0));
    assert_eq!(odd.can_tick_until(&clock, &Duration::Ticks(1)), None);
    assert!(clock.can_await(5));
    let fast = SystemClock::new(u32::MAX, 24);
    assert!(!fast.can_await(1));
    assert!(SystemClock::new(120, 48).can_await(1));
}

#[test]
fn stop_then_tick_sends_only_clock() {
    let clock = DummyClock::default();
    let mut seq = MidiSequencer::default();
    seq.queue_note(&clock, 0, &Note::Raw(60), &Velocity::Mf, &Duration::Ticks(5)).unwrap();
    seq.queue_control(0, 1, 2).unwrap();
    assert_eq!(seq.tick(&clock), vec![0xf8, 0x90, 60, 64, 0xb0, 1, 2]);
    assert_eq!(seq.stop(), vec![0x80, 60, 0]);
    assert_eq!(seq.tick(&clock), vec![0xf8]);
    for _ in 0..10 {
        let bytes = seq.tick(&clock);
        assert!(bytes.is_empty() || bytes == vec![0xf8]);
    }
}

#[test]
fn rhythm_without_pulses_is_rests() {
    assert_eq!(euclidean_sequence(0, 4, 0), vec![false; 4]);
    assert_eq!(euclidean_sequence(0, 5, 3), vec![false; 5]);
    let clock = DummyClock::default();
    let seq = MidiSequencer::default();
    assert!(seq.can_apply(
        &clock,
        &SeqCall::QueueSequence(0, vec![], Velocity::Mf, Duration::Ticks(1), 0, 4, 1)
    ));
}

#[test]
fn rhythm_pulses_evenly_spaced() {
    for (pulses, len) in [(1u32, 4u32), (3, 8), (5, 8), (5, 13), (7, 12), (4, 4), (2, 9)] {
        let steps = euclidean_sequence(pulses, len, 0);
        assert!(steps[0]);
        let lo = len / pulses;
        let hi = (len + pulses - 1) / pulses;
        let mut run = 0;
        let mut runs = Vec::new();
        for (i, s) in steps.iter().enumerate() {
            if *s && i > 0 {
                runs.push(run);
                run = 0;
            }
            run += 1;
        }
        runs.push(run);
        assert_eq!(runs.len() as u32, pulses);
        assert!(runs.iter().all(|r| *r == lo || *r == hi), "{:?}", runs);
    }
}

#[test]
fn clock_elapsed_round_trip() {
    for (beats, per_bar) in [(3u64, 8u32), (5, 4), (7, 16), (1, 1)] {
        let mut clock = DummyClock::default();
        let ticks = clock.get_ticks(&Duration::Beats(beats, per_bar as u64)).unwrap();
        clock.forward_tick(ticks);
        assert_eq!(clock.elapsed(per_bar).0, Duration::Beats(beats, per_bar as u64));
    }
}

#[test]
fn rhythm_gaps_from_every_offset() {
    for (pulses, len) in [(1u32, 4u32), (3, 8), (5, 8), (5, 13), (7, 12), (4, 4), (2, 9)] {
        let lo = (len / pulses) as usize;
        let hi = ((len + pulses - 1) / pulses) as usize;
        for offset in 0..len {
            let steps = euclidean_sequence(pulses, len, offset);
            let n = steps.len();
            for i in 0..n {
                if steps[i] {
                    let mut gap = 1;
                    while !steps[(i + gap) % n] {
                        gap += 1;
                    }
                    assert!(gap == lo || gap == hi, "{} {} {} {}", pulses, len, offset, gap);
                }
            }
        }
    }
}

#[test]
fn argument_parse_errors() {
    assert_eq!(parse_clip("j "), Err("cannot parse integer from empty string".to_string()));
    assert_eq!(
        parse_clip("n 300 @60 ff 1/4"),
        Err("number too large to fit in target type".to_string())
    );
    assert_eq!(Note::parse("@x"), Err("invalid digit found in string".to_string()));
    assert_eq!(Duration::parse("1/x"), Err("invalid digit found in string".to_string()));
    assert_eq!(
        parse_clip("s 1 @60,maj@x:1 ff 1/4 1 2 0"),
        Err("invalid digit found in string".to_string())
    );
}
