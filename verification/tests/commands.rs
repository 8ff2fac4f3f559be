use bach::commands::{edit_clip, str_trim};
use bach::sequencer::{ClipInst, SeqCall};
use bach::units::Duration;

#[test]
fn trim_removes_outer_whitespace() {
    assert_eq!(str_trim("  3 \t"), "3");
    assert_eq!(str_trim("a b"), "a b");
    assert_eq!(str_trim("   "), "");
    assert_eq!(str_trim(""), "");
    assert_eq!(str_trim("\u{3000}x\u{a0}"), "x");
}

#[test]
fn edit_command() {
    let mut clip = vec![ClipInst::Jmp(0), ClipInst::Tick(Duration::Ticks(1))];
    assert_eq!(edit_clip(&mut clip, "1 = + 1/4"), Ok(()));
    assert_eq!(clip, vec![ClipInst::Jmp(0), ClipInst::Tick(Duration::Beats(1, 4))]);
    assert_eq!(edit_clip(&mut clip, " 0=cc 1 2 3 "), Ok(()));
    assert_eq!(clip[0], ClipInst::Call(SeqCall::QueueControl(1, 2, 3)));
    let before = clip.clone();
    assert_eq!(
        edit_clip(&mut clip, "1"),
        Err("missing arguments: must provide instruction".to_string())
    );
    assert_eq!(
        edit_clip(&mut clip, "2 = nop"),
        Err("index out of bounds: 2 >= 2".to_string())
    );
    assert_eq!(
        edit_clip(&mut clip, "0 = bogus"),
        Err("invalid edit: unknown instruction: bogus".to_string())
    );
    assert_eq!(
        edit_clip(&mut clip, "0 = n 1 @60"),
        Err("invalid edit: 'n' requires 4 arguments".to_string())
    );
    assert_eq!(
        edit_clip(&mut clip, "x = nop"),
        Err("invalid index: invalid digit found in string".to_string())
    );
    assert_eq!(
        edit_clip(&mut clip, "0 = j x"),
        Err("invalid edit: invalid digit found in string".to_string())
    );
    assert_eq!(clip, before);
}
