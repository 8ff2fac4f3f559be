use bach::units::{Duration, Note, Velocity};
use bach::Result;
use rand::RngExt;

#[test]
fn scales() {
    let assert_note_eq = |note: Note, raw| {
        let converted: Result<u8> = (&note).into();
        assert_eq!(converted, Ok(raw));
    };
    assert_note_eq(Note::Maj(60, -7), 48);
    assert_note_eq(Note::Maj(60, -2), 57);
    assert_note_eq(Note::Maj(60, -1), 59);

    assert_note_eq(Note::Maj(60, 0), 60);
    assert_note_eq(Note::Maj(60, 1), 62);
    assert_note_eq(Note::Maj(60, 2), 64);
    assert_note_eq(Note::Maj(60, 3), 65);
    assert_note_eq(Note::Maj(60, 5), 69);
    assert_note_eq(Note::Maj(60, 6), 71);
    assert_note_eq(Note::Maj(60, 7), 72);

    assert_note_eq(Note::Maj(61, -2), 58);
    assert_note_eq(Note::Maj(61, -1), 60);
    assert_note_eq(Note::Maj(61, 0), 61);
    assert_note_eq(Note::Maj(61, 6), 72);
    assert_note_eq(Note::Maj(61, 7), 73);
}

#[test]
fn diatonic_modes() {
    let assert_notes_eq = |notes: &[Note], raw: &[u8]| {
        for (note, expect) in notes.iter().zip(raw) {
            let converted: Result<u8> = note.into();
            assert_eq!(converted, Ok(*expect), "{}", note.to_string());
        }
    };
    // All modes over one octave, plus the octave itself and one degree below.
    let mode = |f: fn(u8, i8) -> Note| (-1..=7).map(|o| f(60, o)).collect::<Vec<_>>();

    assert_notes_eq(&mode(Note::Dor), &[58, 60, 62, 63, 65, 67, 69, 70, 72]);
    assert_notes_eq(&mode(Note::Lyd), &[59, 60, 62, 64, 66, 67, 69, 71, 72]);
    assert_notes_eq(&mode(Note::Mix), &[58, 60, 62, 64, 65, 67, 69, 70, 72]);
    assert_notes_eq(&mode(Note::Loc), &[58, 60, 61, 63, 65, 66, 68, 70, 72]);

    // Modes are rotations of the major scale: the n-th mode starting on the
    // major scale's n-th degree spans the same pitches.
    for degree in 0..7 {
        let rotated: Result<u8> = (&Note::Maj(60, degree)).into();
        let rotated = rotated.unwrap();
        let expect: Result<u8> = (&Note::Maj(60, degree + 3)).into();
        let as_mode: Result<u8> = match degree {
            1 => (&Note::Dor(rotated, 3)).into(),
            3 => (&Note::Lyd(rotated, 3)).into(),
            4 => (&Note::Mix(rotated, 3)).into(),
            6 => (&Note::Loc(rotated, 3)).into(),
            _ => continue,
        };
        assert_eq!(as_mode, expect, "degree {}", degree);
    }

    assert_notes_eq(&[Note::Dor(61, -1), Note::Loc(61, 7)], &[59, 73]);
}

#[test]
fn pentatonic_scales() {
    let assert_note_eq = |note: Note, raw| {
        let converted: Result<u8> = (&note).into();
        assert_eq!(converted, Ok(raw));
    };

    assert_note_eq(Note::MinPent(60, -5), 48);
    assert_note_eq(Note::MinPent(60, -1), 58);
    assert_note_eq(Note::MinPent(60, 0), 60);
    assert_note_eq(Note::MinPent(60, 1), 63);
    assert_note_eq(Note::MinPent(60, 2), 65);
    assert_note_eq(Note::MinPent(60, 3), 67);
    assert_note_eq(Note::MinPent(60, 4), 70);
    assert_note_eq(Note::MinPent(60, 5), 72);

    assert_note_eq(Note::MajPent(60, -5), 48);
    assert_note_eq(Note::MajPent(60, -1), 57);
    assert_note_eq(Note::MajPent(60, 0), 60);
    assert_note_eq(Note::MajPent(60, 1), 62);
    assert_note_eq(Note::MajPent(60, 2), 64);
    assert_note_eq(Note::MajPent(60, 3), 67);
    assert_note_eq(Note::MajPent(60, 4), 69);
    assert_note_eq(Note::MajPent(60, 5), 72);

    assert_note_eq(Note::Blues(60, -6), 48);
    assert_note_eq(Note::Blues(60, -1), 58);
    assert_note_eq(Note::Blues(60, 0), 60);
    assert_note_eq(Note::Blues(60, 1), 63);
    assert_note_eq(Note::Blues(60, 2), 65);
    assert_note_eq(Note::Blues(60, 3), 66);
    assert_note_eq(Note::Blues(60, 4), 67);
    assert_note_eq(Note::Blues(60, 5), 70);
    assert_note_eq(Note::Blues(60, 6), 72);

    assert_note_eq(Note::Blues(61, -1), 59);
    assert_note_eq(Note::Blues(61, 6), 73);
}

#[test]
fn rand_scales() {
    let mut rng = rand::rng();
    for _ in 0..10000 {
        let key = rng.random_range(55..65);
        let offset = rng.random_range(-20..=20);
        for note in [
            Note::Maj(key, offset),
            Note::Dor(key, offset),
            Note::Lyd(key, offset),
            Note::Mix(key, offset),
            Note::Loc(key, offset),
            Note::MinPent(key, offset),
            Note::MajPent(key, offset),
            Note::Blues(key, offset),
        ] {
            let converted: Result<u8> = (&note).into();
            assert!(converted.is_ok(), "{:?}: {:?}", note, converted);
        }
    }
}

#[test]
fn basic_parsing() {
    assert!("*".parse() == Ok(Duration::Begin));
    assert!("-".parse() == Ok(Duration::End));
    assert!("3t".parse() == Ok(Duration::Ticks(3)));
    assert!("1/4".parse() == Ok(Duration::Beats(1, 4)));

    assert!("@60".parse() == Ok(Note::Raw(60)));
    assert!("maj@60:-1".parse() == Ok(Note::Maj(60, -1)));
    assert!("maj@60:0".parse() == Ok(Note::Maj(60, 0)));
    assert!("dor@60:1".parse() == Ok(Note::Dor(60, 1)));
    assert!("lyd@60:-2".parse() == Ok(Note::Lyd(60, -2)));
    assert!("mix@60:0".parse() == Ok(Note::Mix(60, 0)));
    assert!("loc@60:6".parse() == Ok(Note::Loc(60, 6)));
    assert!("minpent@60:1".parse() == Ok(Note::MinPent(60, 1)));
    assert!("majpent@60:-1".parse() == Ok(Note::MajPent(60, -1)));
    assert!("blues@60:3".parse() == Ok(Note::Blues(60, 3)));

    assert!("-".parse() == Ok(Velocity::Silent));
    assert!("mf".parse() == Ok(Velocity::Mf));
    assert!("pppp".parse() == Ok(Velocity::Pppp));
    assert!("fff".parse() == Ok(Velocity::Fff));
}
