use whyhot::model::ApplicationRow;
use whyhot::session::{handle_key, key_of, next_frame, reselect, Key, ScreenState, Step};

fn app(name: &str) -> ApplicationRow {
    ApplicationRow {
        name: name.into(),
        pids: vec![1],
        cpu_hundredths: 0,
        memory_bytes: 0,
        io_bytes_per_sec: 0,
        runtime_secs: 0,
        active_samples: 0,
    }
}

#[test]
fn keys_are_recognised() {
    assert_eq!(key_of(b"q"), Key::Quit);
    assert_eq!(key_of(b"Q"), Key::Quit);
    assert_eq!(key_of(b"j"), Key::Down);
    assert_eq!(key_of(b"\x1b[B"), Key::Down);
    assert_eq!(key_of(b"k"), Key::Up);
    assert_eq!(key_of(b"\x1b[A"), Key::Up);
    assert_eq!(key_of(b"p"), Key::ToggleApplications);
    assert_eq!(key_of(b"R"), Key::Refresh);
    assert_eq!(key_of(b"x"), Key::Other);
    assert_eq!(key_of(b"\x1b[C"), Key::Other);
    assert_eq!(key_of(b"jj"), Key::Other);
}

#[test]
fn selection_moves_within_the_shown_rows() {
    let mut state = ScreenState { selected: 0, show_processes: false, frame: 0 };
    assert_eq!(handle_key(&mut state, Key::Up, 3, 10), Step::Redraw);
    assert_eq!(state.selected, 0);
    for _ in 0..5 {
        handle_key(&mut state, Key::Down, 3, 10);
    }
    assert_eq!(state.selected, 2);
    handle_key(&mut state, Key::Down, 10, 1);
    assert_eq!(state.selected, 0);
    assert_eq!(handle_key(&mut state, Key::ToggleApplications, 3, 10), Step::Redraw);
    assert!(state.show_processes);
    assert_eq!(handle_key(&mut state, Key::Refresh, 3, 10), Step::Resample);
    assert_eq!(handle_key(&mut state, Key::Quit, 3, 10), Step::Quit);
    state.frame = u64::MAX;
    next_frame(&mut state);
    assert_eq!(state.frame, 0);
}

#[test]
fn selection_follows_the_application() {
    let before = vec![app("a"), app("b"), app("c")];
    let after = vec![app("c"), app("a")];
    assert_eq!(reselect(&before, 0, &after), 1);
    assert_eq!(reselect(&before, 2, &after), 0);
    assert_eq!(reselect(&before, 1, &after), 1);
    assert_eq!(reselect(&before, 1, &vec![]), 0);
    assert_eq!(reselect(&before, 7, &after), 1);
}
