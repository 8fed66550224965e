//! What the window around the library decides and says.

use mixlyzer::number::binary64::Binary64;
use mixlyzer::shell::{keyboard, pointer_action, Action, Direction, Keys, Pointer, Shell};

fn f(x: f64) -> Binary64 {
    Binary64::from_bits(x.to_bits())
}

fn pressed(keys: &str) -> Keys {
    Keys {
        space: keys.contains(' '),
        left: keys.contains('<'),
        right: keys.contains('>'),
        minus: keys.contains('-'),
        plus: keys.contains('+'),
        equals: keys.contains('='),
    }
}

#[test]
fn each_key_asks_for_one_thing() {
    assert_eq!(keyboard(pressed("")), None);
    assert_eq!(keyboard(pressed(" ")), Some(Action::TogglePlay));
    assert_eq!(keyboard(pressed("<")), Some(Action::SeekBar(Direction::Backward)));
    assert_eq!(keyboard(pressed(">")), Some(Action::SeekBar(Direction::Forward)));
    assert_eq!(keyboard(pressed("-")), Some(Action::ZoomOut));
    assert_eq!(keyboard(pressed("+")), Some(Action::ZoomIn));
    assert_eq!(keyboard(pressed("=")), Some(Action::ZoomIn));
    assert_eq!(keyboard(pressed("+ <")), Some(Action::TogglePlay));
    assert_eq!(keyboard(pressed("+->")), Some(Action::SeekBar(Direction::Forward)));
}

#[test]
fn a_drag_selects_and_a_click_seeks() {
    let pointer = |drag_started, dragged, clicked| Pointer { drag_started, dragged, clicked };
    let (at, beat) = (f(10.3), f(10.5));
    assert_eq!(pointer_action(pointer(true, true, false), at, beat), Some(Action::SelectFrom(at)));
    assert_eq!(pointer_action(pointer(false, true, false), at, beat), Some(Action::SelectTo(at)));
    assert_eq!(pointer_action(pointer(false, false, true), at, beat), Some(Action::Seek(beat)));
    assert_eq!(pointer_action(pointer(false, false, false), at, beat), None);
}

#[test]
fn the_window_says_what_becomes_of_a_file() {
    let mut shell = Shell::new();
    shell.library_failed("locked");
    assert_eq!(shell.status.as_deref(), Some("Could not open the library: locked"));
    shell.request_sent("/music/a.flac", true);
    assert_eq!((shell.status.as_deref(), shell.analysing.as_deref()), (None, Some("/music/a.flac")));
    shell.library_failed("locked");
    assert_eq!(shell.analysing.as_deref(), Some("/music/a.flac"));
    shell.analysis_failed("/music/a.flac", "no audio");
    assert_eq!((shell.status.as_deref(), shell.analysing.as_deref()), (Some("/music/a.flac: no audio"), None));
    shell.request_sent("/music/b.flac", true);
    shell.analysis_ready();
    assert_eq!((shell.status.as_deref(), shell.analysing.as_deref()), (None, None));
    shell.request_sent("/music/c.flac", false);
    assert_eq!(
        (shell.status.as_deref(), shell.analysing.as_deref()),
        (Some("The analysis worker has stopped."), None)
    );
}
