//! The decisions of the live screen: what a key does, and which application
//! stays selected when a new snapshot arrives.

use vstd::prelude::*;

use crate::model::ApplicationRow;

verus! {

/// What a key press asks for.
#[derive(Clone, Copy, Debug, PartialEq, Eq, Structural)]
pub enum Key {
    Quit,
    Down,
    Up,
    ToggleApplications,
    Refresh,
    Other,
}

/// The key that the bytes read from the terminal stand for (`q`/`Q`, `j` or
/// the down arrow, `k` or the up arrow, `p`/`P`, `r`/`R`).
pub open spec fn key_for(bytes: Seq<u8>) -> Key {
    if bytes == seq![0x71u8] || bytes == seq![0x51u8] {
        Key::Quit
    } else if bytes == seq![0x6au8] || bytes == seq![0x1bu8, 0x5bu8, 0x42u8] {
        Key::Down
    } else if bytes == seq![0x6bu8] || bytes == seq![0x1bu8, 0x5bu8, 0x41u8] {
        Key::Up
    } else if bytes == seq![0x70u8] || bytes == seq![0x50u8] {
        Key::ToggleApplications
    } else if bytes == seq![0x72u8] || bytes == seq![0x52u8] {
        Key::Refresh
    } else {
        Key::Other
    }
}

/// The key that the bytes read from the terminal stand for: `q` quits, `j` or
/// down moves down, `k` or up moves up, `p` shows or hides the applications,
/// `r` refreshes.
pub fn key_of(bytes: &[u8]) -> (k: Key)
    ensures
        k == key_for(bytes@),
{
    if bytes.len() == 1 {
        let b = bytes[0];
        assert(bytes@ == seq![b]);
        if b == 0x71u8 || b == 0x51u8 {
            Key::Quit
        } else if b == 0x6au8 {
            Key::Down
        } else if b == 0x6bu8 {
            Key::Up
        } else if b == 0x70u8 || b == 0x50u8 {
            Key::ToggleApplications
        } else if b == 0x72u8 || b == 0x52u8 {
            Key::Refresh
        } else {
            Key::Other
        }
    } else if bytes.len() == 3 && bytes[0] == 0x1b && bytes[1] == 0x5bu8 {
        assert(bytes@ == seq![bytes@[0], bytes@[1], bytes@[2]]);
        if bytes[2] == 0x42u8 {
            Key::Down
        } else if bytes[2] == 0x41u8 {
            Key::Up
        } else {
            Key::Other
        }
    } else {
        proof {
            if bytes@.len() != 3 {
                assert(bytes@.len() != seq![0x1bu8, 0x5bu8, 0x42u8].len());
            } else {
                assert(bytes@[0] != 0x1b || bytes@[1] != 0x5bu8);
            }
        }
        Key::Other
    }
}

/// What the screen shows besides the snapshot.
pub struct ScreenState {
    /// Index of the selected application.
    pub selected: usize,
    /// Whether the application table is shown.
    pub show_processes: bool,
    /// Animation frame.
    pub frame: u64,
}

/// What to do after a key.
#[derive(Clone, Copy, Debug, PartialEq, Eq, Structural)]
pub enum Step {
    Quit,
    Resample,
    Redraw,
}

/// The last selectable row: the table shows at most `top` of `count`
/// applications.
pub open spec fn last_row(top: nat, count: nat) -> nat {
    let shown = if top < count {
        top
    } else {
        count
    };
    if shown >= 1 {
        (shown - 1) as nat
    } else {
        0
    }
}

/// The effect of a key: `q` quits and `r` resamples; the others change the
/// screen and redraw it. Moving down stops at the last shown row, moving up at
/// the first; `p` shows or hides the applications.
pub fn handle_key(state: &mut ScreenState, key: Key, top: usize, count: usize) -> (step: Step)
    ensures
        step == (match key {
            Key::Quit => Step::Quit,
            Key::Refresh => Step::Resample,
            _ => Step::Redraw,
        }),
        final(state).frame == old(state).frame,
        final(state).show_processes == (if key == Key::ToggleApplications {
            !old(state).show_processes
        } else {
            old(state).show_processes
        }),
        final(state).selected == (match key {
            Key::Down => if old(state).selected + 1 < last_row(top as nat, count as nat) {
                (old(state).selected + 1) as nat
            } else {
                last_row(top as nat, count as nat)
            },
            Key::Up => if old(state).selected >= 1 {
                (old(state).selected - 1) as nat
            } else {
                0
            },
            _ => old(state).selected as nat,
        }),
{
    match key {
        Key::Quit => Step::Quit,
        Key::Refresh => Step::Resample,
        Key::Down => {
            let shown = if top < count {
                top
            } else {
                count
            };
            let last = if shown >= 1 {
                shown - 1
            } else {
                0
            };
            let next = state.selected.saturating_add(1);
            state.selected = if next < last {
                next
            } else {
                last
            };
            Step::Redraw
        },
        Key::Up => {
            state.selected = state.selected.saturating_sub(1);
            Step::Redraw
        },
        Key::ToggleApplications => {
            state.show_processes = !state.show_processes;
            Step::Redraw
        },
        Key::Other => Step::Redraw,
    }
}

/// Advances the animation by one frame (wrapping).
pub fn next_frame(state: &mut ScreenState)
    ensures
        final(state).frame == (if old(state).frame == u64::MAX {
            0
        } else {
            (old(state).frame + 1) as u64
        }),
        final(state).selected == old(state).selected,
        final(state).show_processes == old(state).show_processes,
{
    state.frame = if state.frame == u64::MAX {
        0
    } else {
        state.frame + 1
    };
}

/// The first index of an application named `n`.
pub open spec fn position_of(apps: Seq<ApplicationRow>, n: Seq<char>) -> Option<int>
    decreases apps.len(),
{
    if apps.len() == 0 {
        None
    } else if apps[0].name@ == n {
        Some(0)
    } else {
        match position_of(apps.drop_first(), n) {
            Some(i) => Some(i + 1),
            None => None,
        }
    }
}

/// The selection in a new snapshot: the application that was selected, where
/// it still is; else the same row, moved up to the last row when the list got
/// shorter.
pub open spec fn reselected(before: Seq<ApplicationRow>, selected: nat, after: Seq<ApplicationRow>) -> nat {
    let kept = if selected < before.len() {
        position_of(after, before[selected as int].name@)
    } else {
        None
    };
    match kept {
        Some(i) => i as nat,
        None => {
            let last = if after.len() >= 1 {
                (after.len() - 1) as nat
            } else {
                0
            };
            if selected < last {
                selected
            } else {
                last
            }
        },
    }
}

/// The selection once a new snapshot replaces the old one.
pub fn reselect(before: &Vec<ApplicationRow>, selected: usize, after: &Vec<ApplicationRow>) -> (r: usize)
    ensures
        r == reselected(before@, selected as nat, after@),
{
    if selected < before.len() {
        let name = &before[selected].name;
        let mut i: usize = 0;
        assert(after@.skip(0) == after@);
        while i < after.len()
            invariant
                i <= after.len(),
                selected < before@.len(),
                name@ == before@[selected as int].name@,
                position_of(after@, name@) == match position_of(after@.skip(i as int), name@) {
                    Some(k) => Some(k + i),
                    None => None,
                },
            decreases after.len() - i,
        {
            assert(after@.skip(i as int)[0] == after@[i as int]);
            assert(after@.skip(i as int).drop_first() == after@.skip(i + 1));
            if after[i].name == *name {
                return i;
            }
            i += 1;
        }
    }
    let last = if after.len() >= 1 {
        after.len() - 1
    } else {
        0
    };
    if selected < last {
        selected
    } else {
        last
    }
}

proof fn lemma_position_of(apps: Seq<ApplicationRow>, n: Seq<char>)
    ensures
        match position_of(apps, n) {
            Some(i) => 0 <= i < apps.len() && apps[i].name@ == n,
            None => forall|i: int| 0 <= i < apps.len() ==> (#[trigger] apps[i]).name@ != n,
        },
    decreases apps.len(),
{
    if apps.len() > 0 {
        lemma_position_of(apps.drop_first(), n);
        if apps[0].name@ != n {
            match position_of(apps.drop_first(), n) {
                Some(i) => {
                    assert(apps[i + 1] == apps.drop_first()[i]);
                },
                None => {
                    assert forall|i: int| 0 <= i < apps.len() implies (#[trigger] apps[i]).name@ != n by {
                        if i > 0 {
                            assert(apps[i] == apps.drop_first()[i - 1]);
                        }
                    }
                },
            }
        }
    }
}

/// After a new snapshot the selection is a row of it (when it has any), and
/// the application that was selected stays selected wherever it moved.
pub proof fn reselection_follows_application(before: Seq<ApplicationRow>, selected: nat, after: Seq<ApplicationRow>)
    ensures
        after.len() > 0 ==> reselected(before, selected, after) < after.len(),
        selected < before.len() && (exists|i: int| 0 <= i < after.len() && (#[trigger] after[i]).name@ == before[selected as int].name@)
            ==> after[reselected(before, selected, after) as int].name@ == before[selected as int].name@,
{
    if selected < before.len() {
        lemma_position_of(after, before[selected as int].name@);
    }
}

/// Moving through the table never leaves it: from a shown row, up and down
/// stay on shown rows.
pub proof fn selection_stays_in_table(selected: nat, top: nat, count: nat)
    requires
        selected <= last_row(top, count),
    ensures
        (if selected + 1 < last_row(top, count) {
            selected + 1
        } else {
            last_row(top, count)
        }) <= last_row(top, count),
        (if selected >= 1 {
            (selected - 1) as nat
        } else {
            0
        }) <= last_row(top, count),
{
}

/// The keys do what the help line says, in either case for letters: `q`
/// quits, `r` refreshes, `p` shows or hides the applications, `j` or the down
/// arrow moves down, `k` or the up arrow moves up; nothing else does anything.
pub proof fn keys_follow_the_help(bytes: Seq<u8>)
    ensures
        key_for(bytes) == Key::Quit <==> (bytes == seq![0x71u8] || bytes == seq![0x51u8]),
        key_for(bytes) == Key::Refresh <==> (bytes == seq![0x72u8] || bytes == seq![0x52u8]),
        key_for(bytes) == Key::ToggleApplications <==> (bytes == seq![0x70u8] || bytes == seq![0x50u8]),
        key_for(bytes) == Key::Down <==> (bytes == seq![0x6au8] || bytes == seq![0x1bu8, 0x5bu8, 0x42u8]),
        key_for(bytes) == Key::Up <==> (bytes == seq![0x6bu8] || bytes == seq![0x1bu8, 0x5bu8, 0x41u8]),
{
    if bytes.len() == 1 {
        assert forall|b: u8| bytes == seq![b] <==> bytes[0] == b by {
            if bytes[0] == b {
                assert(bytes =~= seq![b]);
            }
        }
    } else {
        assert forall|b: u8| bytes != seq![b] by {
            assert(seq![b].len() == 1);
        }
    }
    if bytes.len() == 3 {
        assert forall|c: u8| bytes == seq![0x1bu8, 0x5bu8, c] <==> (bytes[0] == 0x1bu8 && bytes[1] == 0x5bu8 && bytes[2] == c) by {
            if bytes[0] == 0x1bu8 && bytes[1] == 0x5bu8 && bytes[2] == c {
                assert(bytes =~= seq![0x1bu8, 0x5bu8, c]);
            }
        }
    } else {
        assert forall|c: u8| bytes != seq![0x1bu8, 0x5bu8, c] by {
            assert(seq![0x1bu8, 0x5bu8, c].len() == 3);
        }
    }
}

} // verus!
