use bach::clipfile::{read_clip_file, write_clip_file, ClipFileLine};
use bach::config::{ConfigSetting, Weight};
use bach::player::ClipPlayer;
use bach::sequencer::{ClipInst, SeqCall};
use bach::units::{Duration, Note, Velocity};

fn lines(text: &[&str]) -> Vec<String> {
    text.iter().map(|s| s.to_string()).collect()
}

#[test]
fn config_lines() {
    assert_eq!(ConfigSetting::parse(""), Ok(ConfigSetting::Nothing));
    assert_eq!(ConfigSetting::parse("# a comment"), Ok(ConfigSetting::Nothing));
    assert_eq!(ConfigSetting::parse("send_clock false"), Ok(ConfigSetting::SendClock(false)));
    assert_eq!(ConfigSetting::parse("midi_ver 20"), Ok(ConfigSetting::MidiVer(20)));
    assert_eq!(
        ConfigSetting::parse("cc 1,7,0-127 2,10,30-90"),
        Ok(ConfigSetting::Cc(vec![(1, 7, (0, 127)), (2, 10, (30, 90))]))
    );
    assert_eq!(ConfigSetting::parse("channels 0-3"), Ok(ConfigSetting::Channels(0, 3)));
    assert_eq!(
        ConfigSetting::parse("note_scale maj@60:0,dor@62:0"),
        Ok(ConfigSetting::NoteScale(vec![Note::Maj(60, 0), Note::Dor(62, 0)]))
    );
    assert_eq!(
        ConfigSetting::parse("chord_weight 0.5"),
        Ok(ConfigSetting::Weight(Weight::Chord, "0.5".to_string()))
    );
    assert_eq!(ConfigSetting::parse("clip_tail 2/4"), Ok(ConfigSetting::ClipTail(Duration::Beats(2, 4))));
    assert_eq!(ConfigSetting::parse("population_size 16"), Ok(ConfigSetting::PopulationSize(16)));
    assert_eq!(
        ConfigSetting::parse("population_path /tmp/pop"),
        Ok(ConfigSetting::PopulationPath("/tmp/pop".to_string()))
    );
    assert_eq!(
        ConfigSetting::parse("tempo 120"),
        Err("unknown configuration: tempo 120".to_string())
    );
    assert!(ConfigSetting::parse("channels 3-1").is_err());
    assert!(ConfigSetting::parse("channels 3").is_err());
    assert!(ConfigSetting::parse("cc 1,7").is_err());
    assert!(ConfigSetting::parse("cc 1,7,5").is_err());
    assert!(ConfigSetting::parse("send_clock yes").is_err());
    assert!(ConfigSetting::parse("note_min maj@60").is_err());
}

#[test]
fn clip_file_lines() {
    assert_eq!(
        ClipFileLine::parse("# comment: nice one"),
        Ok(ClipFileLine::Comment("nice one".to_string()))
    );
    assert_eq!(ClipFileLine::parse("# fitness: 1.5"), Ok(ClipFileLine::Fitness("1.5".to_string())));
    assert_eq!(ClipFileLine::parse("   "), Ok(ClipFileLine::Ignored));
    assert_eq!(ClipFileLine::parse("# other"), Ok(ClipFileLine::Ignored));
    assert_eq!(ClipFileLine::parse(".skip_allocated true"), Ok(ClipFileLine::SkipAllocated(Some(true))));
    assert_eq!(ClipFileLine::parse(".skip_allocated maybe"), Ok(ClipFileLine::SkipAllocated(None)));
    assert_eq!(ClipFileLine::parse("j -2"), Ok(ClipFileLine::Inst(ClipInst::Jmp(-2))));
    assert_eq!(ClipFileLine::parse("zzz"), Err("unknown instruction: zzz".to_string()));
}

#[test]
fn clip_file_round_trip() {
    let clip = vec![
        ClipInst::Call(SeqCall::QueueNote(1, Note::Raw(60), Velocity::Mf, Duration::Beats(1, 4))),
        ClipInst::Tick(Duration::Beats(1, 4)),
        ClipInst::Jmp(-2),
    ];
    let written = write_clip_file("first", Some("0.25"), true, &clip);
    assert_eq!(
        written,
        lines(&["# comment: first", "# fitness: 0.25", ".skip_allocated true", "n 1 @60 mf 1/4", "+ 1/4", "j -2"])
    );
    let read = read_clip_file(&written).unwrap();
    assert_eq!(read.comment, Some("first".to_string()));
    assert_eq!(read.fitness, Some("0.25".to_string()));
    assert_eq!(read.clip, clip);
    let bare = write_clip_file("", None, false, &vec![]);
    assert_eq!(bare, lines(&["# comment: ", ".skip_allocated false"]));
}

#[test]
fn clip_file_errors() {
    let err = read_clip_file(&lines(&["# comment: x", "", "+ 1/4", "bogus"])).err().unwrap();
    assert_eq!(err, "line 4: unknown instruction: bogus");
    let err = read_clip_file(&lines(&["+ 1/4", "n 1 @60 ff"])).err().unwrap();
    assert_eq!(err, "line 2: 'n' requires 4 arguments");
    let err = read_clip_file(&lines(&["# x", "n 300 @60 ff 1/4"])).err().unwrap();
    assert_eq!(err, "line 2: number too large to fit in target type");
    let empty = read_clip_file(&vec![]).unwrap();
    assert_eq!(empty.comment, None);
    assert!(empty.clip.is_empty());
}

/// Runs a clip through a player and returns the indices visited.
fn visits(prefix: &[ClipInst], clip: &[ClipInst]) -> Vec<i64> {
    let mut player = ClipPlayer::new(prefix.len(), clip.len());
    let mut seen = vec![];
    while !player.finished() {
        seen.push(player.index());
        let inst = player.instruction(prefix, clip);
        player.advance(inst);
    }
    seen
}

#[test]
fn player_jumps_once() {
    let tick = ClipInst::Tick(Duration::Ticks(1));
    // The jump back is taken the first time only.
    let clip = vec![tick.clone(), tick.clone(), ClipInst::Jmp(-2), tick.clone()];
    assert_eq!(visits(&[], &clip), vec![0, 1, 2, 1, 2, 3]);
    // Jumps never go before the start, and forward jumps skip instructions.
    let clip = vec![ClipInst::Jmp(-10), ClipInst::Jmp(2), tick.clone(), tick.clone(), tick.clone()];
    assert_eq!(visits(&[], &clip), vec![0, 1, 4]);
    // The prefix plays first, at negative indices.
    let prefix = vec![tick.clone(), tick.clone()];
    assert_eq!(visits(&prefix, &[tick.clone()]), vec![-2, -1, 0]);
}

#[test]
fn player_silence_and_visits() {
    let tick = ClipInst::Tick(Duration::Ticks(1));
    let clip = vec![tick.clone(), ClipInst::Jmp(-1), ClipInst::Call(SeqCall::QueueControl(0, 1, 2))];
    let mut player = ClipPlayer::new(0, clip.len());
    assert!(player.silence());
    player.advance(&clip[0]);
    assert!(player.silence());
    assert!(player.first_visit());
    player.advance(&clip[1]);
    assert_eq!(player.index(), 1);
    assert!(!player.silence());
    assert!(!player.first_visit());
    player.advance(&clip[1]);
    assert_eq!(player.index(), 2);
    player.advance(&clip[2]);
    assert!(player.finished());
}

#[test]
fn setting_errors() {
    assert_eq!(ConfigSetting::parse("midi_ver x"), Err("invalid digit found in string".to_string()));
    assert_eq!(
        ConfigSetting::parse("send_clock yes"),
        Err("provided string was not `true` or `false`".to_string())
    );
    assert_eq!(
        ConfigSetting::parse("cc 1,7,0-127 2,10,30-x"),
        Err("invalid digit found in string".to_string())
    );
    assert_eq!(ConfigSetting::parse("cc 1,7"), Err("invalid cc setting: 1,7".to_string()));
    assert_eq!(ConfigSetting::parse("channels 5"), Err("invalid channels: 5".to_string()));
    assert_eq!(ConfigSetting::parse("channels 5-2"), Err("invalid channels: 5-2".to_string()));
    assert_eq!(
        ConfigSetting::parse("population_size -1"),
        Err("invalid digit found in string".to_string())
    );
    assert_eq!(ConfigSetting::parse("bogus 1"), Err("unknown configuration: bogus 1".to_string()));
}
