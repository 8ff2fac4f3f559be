use bach::mutation::{mutate_inst, mutation_kinds, part_needed, InstPart, PartKind};
use bach::sequencer::{ClipInst, SeqCall};
use bach::units::{Duration, Note, Velocity};

fn note() -> ClipInst {
    ClipInst::Call(SeqCall::QueueNote(2, Note::Raw(60), Velocity::Mf, Duration::Ticks(4)))
}

fn rhythm() -> ClipInst {
    ClipInst::Call(SeqCall::QueueSequence(
        1,
        vec![Note::Raw(40)],
        Velocity::P,
        Duration::Beats(1, 8),
        3,
        8,
        0,
    ))
}

#[test]
fn mutation_kinds_per_instruction() {
    assert_eq!(mutation_kinds(&note()), 4);
    assert_eq!(mutation_kinds(&rhythm()), 5);
    assert_eq!(mutation_kinds(&ClipInst::Jmp(-2)), 1);
    assert_eq!(mutation_kinds(&ClipInst::Call(SeqCall::QueueControl(1, 2, 3))), 1);
    assert_eq!(part_needed(&note(), 0), PartKind::Note);
    assert_eq!(part_needed(&note(), 3), PartKind::Inst);
    assert_eq!(part_needed(&rhythm(), 0), PartKind::Notes);
    assert_eq!(part_needed(&rhythm(), 3), PartKind::Rhythm);
    assert_eq!(part_needed(&ClipInst::Tick(Duration::Ticks(1)), 0), PartKind::Inst);
}

#[test]
fn mutation_replaces_one_part() {
    assert_eq!(
        mutate_inst(note(), 0, InstPart::Note(Note::Maj(60, 2))),
        ClipInst::Call(SeqCall::QueueNote(2, Note::Maj(60, 2), Velocity::Mf, Duration::Ticks(4)))
    );
    assert_eq!(
        mutate_inst(note(), 1, InstPart::Velocity(Velocity::Ff)),
        ClipInst::Call(SeqCall::QueueNote(2, Note::Raw(60), Velocity::Ff, Duration::Ticks(4)))
    );
    assert_eq!(
        mutate_inst(rhythm(), 3, InstPart::Rhythm(5, 8, 1)),
        ClipInst::Call(SeqCall::QueueSequence(
            1,
            vec![Note::Raw(40)],
            Velocity::P,
            Duration::Beats(1, 8),
            5,
            8,
            1
        ))
    );
    assert_eq!(
        mutate_inst(rhythm(), 0, InstPart::Notes(vec![Note::Raw(1), Note::Raw(2)])),
        ClipInst::Call(SeqCall::QueueSequence(
            1,
            vec![Note::Raw(1), Note::Raw(2)],
            Velocity::P,
            Duration::Beats(1, 8),
            3,
            8,
            0
        ))
    );
    assert_eq!(
        mutate_inst(ClipInst::Jmp(0), 0, InstPart::Inst(ClipInst::Tick(Duration::Ticks(2)))),
        ClipInst::Tick(Duration::Ticks(2))
    );
}
