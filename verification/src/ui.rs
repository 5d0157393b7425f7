//! Terminal rendering of a diagnosis.

use vstd::prelude::*;

use crate::diagnosis::{GIB, MIB};
use crate::diagnosis::{diagnose, diagnosis_of, duration_chars, duration_text, overall, overall_of, views};
use crate::model::{ApplicationRow, FindingView, Severity, Snapshot, severity_label};
use crate::text::{dec, decimal, pad_left, pad_right, push_padded_left, push_padded_right};
use crate::text::{
    append_chars, chars_of, fixed0, fixed0_chars, fixed1, fixed1_chars, join, lit, string_of,
    words, words_of, char_seqs,
};

verus! {

/// The escape sequence that colours a severity.
pub open spec fn color_text(severity: Severity) -> Seq<char> {
    match severity {
        Severity::Cool => "\x1b[32m"@,
        Severity::Warm => "\x1b[33m"@,
        Severity::Hot => "\x1b[31m"@,
    }
}

/// The escape sequence that colours a severity: green, yellow or red.
pub fn color(severity: Severity) -> (r: &'static str)
    ensures
        r@ == color_text(severity),
{
    match severity {
        Severity::Cool => "\x1b[32m",
        Severity::Warm => "\x1b[33m",
        Severity::Hot => "\x1b[31m",
    }
}

/// A disk rate as the application table prints it.
pub open spec fn io_rate_text(value: nat) -> Seq<char> {
    if value == 0 {
        "-"@
    } else if value >= GIB {
        fixed1(value, GIB as nat) + "G"@
    } else if value >= MIB {
        fixed1(value, MIB as nat) + "M"@
    } else {
        fixed0(value, 1024) + "K"@
    }
}

/// A disk rate in K, M or G per second, or `-` for none.
pub fn io_rate(value: u64) -> (r: Vec<char>)
    ensures
        r@ == io_rate_text(value as nat),
{
    if value == 0 {
        lit("-")
    } else if value >= GIB {
        let mut r = fixed1_chars(value, GIB);
        append_chars(&mut r, &lit("G"));
        r
    } else if value >= MIB {
        let mut r = fixed1_chars(value, MIB);
        append_chars(&mut r, &lit("M"));
        r
    } else {
        let mut r = fixed0_chars(value, 1024);
        append_chars(&mut r, &lit("K"));
        r
    }
}

/// `s` cut to `width` characters, the last replaced by an ellipsis when
/// something was cut and there is room for it.
pub open spec fn truncate_text(s: Seq<char>, width: nat) -> Seq<char> {
    if s.len() <= width {
        s
    } else if width > 1 {
        s.take(width as int).drop_last().push('…')
    } else {
        s.take(width as int)
    }
}

/// `value` cut to `width` characters, ending in an ellipsis when cut.
pub fn truncate(value: &[char], width: usize) -> (r: Vec<char>)
    ensures
        r@ == truncate_text(value@, width as nat),
{
    if value.len() <= width {
        return crate::text::slice_chars(value, 0, value.len());
    }
    let mut r = crate::text::slice_chars(value, 0, width);
    if width > 1 {
        r.pop();
        r.push('…');
    }
    r
}

/// The state of word wrapping after some words: finished lines, current line.
pub open spec fn wrap_step(
    state: (Seq<Seq<char>>, Seq<char>),
    word: Seq<char>,
    width: nat,
) -> (Seq<Seq<char>>, Seq<char>) {
    let (done, line) = state;
    let (done, line) = if line.len() > 0 && line.len() + 1 + word.len() > width {
        (done.push(line), Seq::<char>::empty())
    } else {
        (done, line)
    };
    let line = if line.len() > 0 {
        line.push(' ')
    } else {
        line
    };
    (done, line + word)
}

/// Word wrapping over `ws`, from a given state.
pub open spec fn wrap_from(
    ws: Seq<Seq<char>>,
    state: (Seq<Seq<char>>, Seq<char>),
    width: nat,
) -> (Seq<Seq<char>>, Seq<char>)
    decreases ws.len(),
{
    if ws.len() == 0 {
        state
    } else {
        wrap_from(ws.drop_first(), wrap_step(state, ws[0], width), width)
    }
}

/// The lines of `s` wrapped at `width` characters (at least one), words
/// never split; a single empty line for text without words.
pub open spec fn wrap_text(s: Seq<char>, width: nat) -> Seq<Seq<char>> {
    let w = if width > 0 {
        width
    } else {
        1
    };
    let (done, line) = wrap_from(words(s), (Seq::empty(), Seq::empty()), w);
    let all = if line.len() > 0 {
        done.push(line)
    } else {
        done
    };
    if all.len() == 0 {
        seq![Seq::empty()]
    } else {
        all
    }
}

/// Wraps text into lines of at most `width` characters without splitting words.
pub fn wrap_words(value: &str, width: usize) -> (r: Vec<String>)
    ensures
        r@.len() == wrap_text(value@, width as nat).len(),
        forall|i: int| 0 <= i < r@.len() ==> #[trigger] r@[i]@ == wrap_text(value@, width as nat)[i],
{
    let w: usize = if width > 0 {
        width
    } else {
        1
    };
    let ws = words_of(&chars_of(value));
    let ghost all = words(value@);
    let mut lines: Vec<String> = Vec::new();
    let mut line: Vec<char> = Vec::new();
    let mut i: usize = 0;
    assert(all.skip(0) == all);
    assert(lines@.map_values(|l: String| l@) =~= Seq::<Seq<char>>::empty());
    assert(line@ =~= Seq::<char>::empty());
    while i < ws.len()
        invariant
            i <= ws.len() == all.len(),
            all == words(value@),
            forall|k: int| 0 <= k < ws@.len() ==> #[trigger] ws@[k]@ == all[k],
            wrap_from(all, (Seq::empty(), Seq::empty()), w as nat) == wrap_from(
                all.skip(i as int),
                (lines@.map_values(|l: String| l@), line@),
                w as nat,
            ),
        decreases ws.len() - i,
    {
        let ghost state = (lines@.map_values(|l: String| l@), line@);
        assert(all.skip(i as int)[0] == ws@[i as int]@);
        assert(all.skip(i as int).drop_first() == all.skip(i + 1));
        let word = &ws[i];
        if line.len() > 0 && line.len() as u128 + 1 + word.len() as u128 > w as u128 {
            let ghost before = lines@;
            lines.push(string_of(&line));
            assert(lines@.map_values(|l: String| l@) =~= before.map_values(|l: String| l@).push(line@));
            line = Vec::new();
        }
        if line.len() > 0 {
            line.push(' ');
        }
        append_chars(&mut line, word);
        assert((lines@.map_values(|l: String| l@), line@) == wrap_step(state, all[i as int], w as nat));
        i += 1;
    }
    assert(all.skip(i as int).len() == 0);
    if line.len() > 0 {
        let ghost before = lines@;
        lines.push(string_of(&line));
        assert(lines@.map_values(|l: String| l@) =~= before.map_values(|l: String| l@).push(line@));
    }
    if lines.len() == 0 {
        lines.push(String::new());
        assert(lines@.map_values(|l: String| l@) =~= seq![Seq::<char>::empty()]);
    }
    assert forall|k: int| 0 <= k < lines@.len() implies #[trigger] lines@[k]@ == wrap_text(value@, width as nat)[k] by {
        assert(lines@.map_values(|l: String| l@)[k] == lines@[k]@);
    }
    lines
}


proof fn lemma_words_nonempty(s: Seq<char>)
    ensures
        forall|i: int| 0 <= i < words(s).len() ==> (#[trigger] words(s)[i]).len() > 0,
    decreases s.len(),
{
    if s.len() > 0 {
        if crate::text::is_white(s[0]) {
            lemma_words_nonempty(s.drop_first());
            assert(words(s) == words(s.drop_first()));
        } else {
            let e = crate::text::word_len(s);
            crate::text::lemma_word_len(s);
            assert(e > 0);
            if 0 < e <= s.len() {
                assert(words(s) == seq![s.take(e)] + words(s.skip(e)));
                lemma_words_nonempty(s.skip(e));
                let ws = words(s);
                assert forall|i: int| 0 <= i < ws.len() implies (#[trigger] ws[i]).len() > 0 by {
                    if i > 0 {
                        assert(ws[i] == words(s.skip(e))[i - 1]);
                    } else {
                        assert(ws[0] == s.take(e));
                    }
                }
            }
        }
    }
}

/// `a`, then a space and `w` when `a` is not empty.
pub open spec fn then_word(a: Seq<char>, w: Seq<char>) -> Seq<char> {
    if a.len() == 0 {
        w
    } else {
        a + " "@ + w
    }
}

/// The words of `ws` appended to `a` one by one, separated by single spaces.
pub open spec fn append_words(a: Seq<char>, ws: Seq<Seq<char>>) -> Seq<char>
    decreases ws.len(),
{
    if ws.len() == 0 {
        a
    } else {
        append_words(then_word(a, ws[0]), ws.drop_first())
    }
}

/// The text of a wrapping state, its lines joined by spaces.
pub open spec fn state_text(state: (Seq<Seq<char>>, Seq<char>)) -> Seq<char> {
    let (done, line) = state;
    join(
        if line.len() > 0 {
            done.push(line)
        } else {
            done
        },
        " "@,
    )
}

proof fn lemma_join_push(parts: Seq<Seq<char>>, x: Seq<char>)
    ensures
        join(parts.push(x), " "@) == then_word(join(parts, " "@), x) || parts.len() > 0 && join(parts, " "@).len() == 0,
        parts.len() > 0 ==> join(parts.push(x), " "@) == join(parts, " "@) + " "@ + x,
{
    assert(parts.push(x).drop_last() == parts);
    if parts.len() == 0 {
        assert(join(parts, " "@) == Seq::<char>::empty());
    }
}

proof fn lemma_join_nonempty(parts: Seq<Seq<char>>)
    requires
        forall|i: int| 0 <= i < parts.len() ==> (#[trigger] parts[i]).len() > 0,
    ensures
        parts.len() > 0 ==> join(parts, " "@).len() > 0,
    decreases parts.len(),
{
    if parts.len() > 1 {
        lemma_join_nonempty(parts.drop_last());
        assert(parts[parts.len() - 1].len() > 0);
    } else if parts.len() == 1 {
        assert(parts[0].len() > 0);
    }
}

proof fn lemma_wrap_step_text(state: (Seq<Seq<char>>, Seq<char>), w: Seq<char>, width: nat)
    requires
        w.len() > 0,
        forall|i: int| 0 <= i < state.0.len() ==> (#[trigger] state.0[i]).len() > 0,
    ensures
        state_text(wrap_step(state, w, width)) == then_word(state_text(state), w),
        forall|i: int| 0 <= i < wrap_step(state, w, width).0.len() ==> (#[trigger] wrap_step(state, w, width).0[i]).len() > 0,
{
    let (done, line) = state;
    reveal_strlit(" ");
    if line.len() > 0 {
        lemma_join_nonempty(done.push(line));
        assert(done.push(line)[done.len() as int] == line);
        assert forall|i: int| 0 <= i < done.push(line).len() implies (#[trigger] done.push(line)[i]).len() > 0 by {
            if i < done.len() {
                assert(done.push(line)[i] == done[i]);
            }
        }
    }
    lemma_join_nonempty(done);
    if line.len() > 0 && line.len() + 1 + w.len() > width {
        let d2 = done.push(line);
        assert forall|i: int| 0 <= i < d2.len() implies (#[trigger] d2[i]).len() > 0 by {
            if i < done.len() {
                assert(d2[i] == done[i]);
            }
        }
        lemma_join_push(d2, w);
        lemma_join_nonempty(d2);
    } else if line.len() > 0 {
        let nl = line.push(' ') + w;
        assert(nl == line + " "@ + w);
        assert(done.push(nl).drop_last() == done);
        assert(done.push(line).drop_last() == done);
        if done.len() > 0 {
            assert(join(done.push(nl), " "@) == join(done, " "@) + " "@ + nl);
            assert(join(done.push(line), " "@) == join(done, " "@) + " "@ + line);
        } else {
            assert(join(done.push(nl), " "@) == nl);
            assert(join(done.push(line), " "@) == line);
        }
    } else {
        assert(line + w == w);
        lemma_join_push(done, w);
    }
}

proof fn lemma_wrap_from_text(ws: Seq<Seq<char>>, state: (Seq<Seq<char>>, Seq<char>), width: nat)
    requires
        forall|i: int| 0 <= i < ws.len() ==> (#[trigger] ws[i]).len() > 0,
        forall|i: int| 0 <= i < state.0.len() ==> (#[trigger] state.0[i]).len() > 0,
    ensures
        state_text(wrap_from(ws, state, width)) == append_words(state_text(state), ws),
    decreases ws.len(),
{
    if ws.len() > 0 {
        lemma_wrap_step_text(state, ws[0], width);
        let t = ws.drop_first();
        assert forall|i: int| 0 <= i < t.len() implies (#[trigger] t[i]).len() > 0 by {
            assert(t[i] == ws[i + 1]);
        }
        lemma_wrap_from_text(t, wrap_step(state, ws[0], width), width);
    }
}

proof fn lemma_append_words_join(ws: Seq<Seq<char>>, k: int)
    requires
        0 <= k <= ws.len(),
        forall|i: int| 0 <= i < ws.len() ==> (#[trigger] ws[i]).len() > 0,
    ensures
        append_words(join(ws.take(k), " "@), ws.skip(k)) == join(ws, " "@),
    decreases ws.len() - k,
{
    if k < ws.len() {
        let p = ws.take(k);
        assert(ws.take(k + 1) == p.push(ws[k]));
        assert(ws.skip(k)[0] == ws[k]);
        assert(ws.skip(k).drop_first() == ws.skip(k + 1));
        assert forall|i: int| 0 <= i < p.len() implies (#[trigger] p[i]).len() > 0 by {
            assert(p[i] == ws[i]);
        }
        lemma_join_nonempty(p);
        lemma_join_push(p, ws[k]);
        if p.len() == 0 {
            assert(join(p, " "@) == Seq::<char>::empty());
            assert(join(p.push(ws[k]), " "@) == ws[k]);
        }
        lemma_append_words_join(ws, k + 1);
    } else {
        assert(ws.take(k) == ws);
    }
}

/// Wrapping loses no word and adds none: the lines joined by single spaces
/// are the words of the text joined by single spaces.
pub proof fn wrap_keeps_words(s: Seq<char>, width: nat)
    ensures
        join(wrap_text(s, width), " "@) == join(words(s), " "@),
{
    let w = if width > 0 {
        width
    } else {
        1
    };
    let ws = words(s);
    lemma_words_nonempty(s);
    let start = (Seq::<Seq<char>>::empty(), Seq::<char>::empty());
    assert(state_text(start) == Seq::<char>::empty());
    lemma_wrap_from_text(ws, start, w);
    lemma_append_words_join(ws, 0);
    assert(ws.take(0) == Seq::<Seq<char>>::empty());
    assert(ws.skip(0) == ws);
    let (done, line) = wrap_from(ws, start, w);
    let all = if line.len() > 0 {
        done.push(line)
    } else {
        done
    };
    if all.len() == 0 {
        assert(join(seq![Seq::<char>::empty()], " "@) == Seq::<char>::empty());
    }
}

proof fn lemma_wrap_from_fits(ws: Seq<Seq<char>>, state: (Seq<Seq<char>>, Seq<char>), width: nat)
    requires
        forall|i: int| 0 <= i < ws.len() ==> (#[trigger] ws[i]).len() <= width,
        forall|i: int| 0 <= i < state.0.len() ==> (#[trigger] state.0[i]).len() <= width,
        state.1.len() <= width,
    ensures
        forall|i: int| 0 <= i < wrap_from(ws, state, width).0.len() ==> (#[trigger] wrap_from(ws, state, width).0[i]).len() <= width,
        wrap_from(ws, state, width).1.len() <= width,
    decreases ws.len(),
{
    if ws.len() > 0 {
        let next = wrap_step(state, ws[0], width);
        let (done, line) = state;
        if line.len() > 0 && line.len() + 1 + ws[0].len() > width {
            assert forall|i: int| 0 <= i < next.0.len() implies (#[trigger] next.0[i]).len() <= width by {
                if i < done.len() {
                    assert(next.0[i] == done[i]);
                }
            }
        }
        let t = ws.drop_first();
        assert forall|i: int| 0 <= i < t.len() implies (#[trigger] t[i]).len() <= width by {
            assert(t[i] == ws[i + 1]);
        }
        lemma_wrap_from_fits(t, next, width);
    }
}

/// When no word is longer than the width, no line is either.
pub proof fn wrap_fits_width(s: Seq<char>, width: nat)
    requires
        width > 0,
        forall|i: int| 0 <= i < words(s).len() ==> (#[trigger] words(s)[i]).len() <= width,
    ensures
        forall|i: int| 0 <= i < wrap_text(s, width).len() ==> (#[trigger] wrap_text(s, width)[i]).len() <= width,
{
    let start = (Seq::<Seq<char>>::empty(), Seq::<char>::empty());
    lemma_wrap_from_fits(words(s), start, width);
    let (done, line) = wrap_from(words(s), start, width);
    let all = if line.len() > 0 {
        done.push(line)
    } else {
        done
    };
    assert forall|i: int| 0 <= i < all.len() implies (#[trigger] all[i]).len() <= width by {
        if i < done.len() {
            assert(all[i] == done[i]);
        }
    }
}


// ---------------------------------------------------------------------------
// The flame
// ---------------------------------------------------------------------------

/// Ends colouring.
pub open spec fn reset_text() -> Seq<char> {
    "\x1b[0m"@
}

/// Starts bold text.
pub open spec fn bold_text() -> Seq<char> {
    "\x1b[1m"@
}

/// The outer, middle and core colours of the flame for a severity.
pub open spec fn flame_colors(severity: Severity) -> (Seq<char>, Seq<char>, Seq<char>) {
    match severity {
        Severity::Hot => ("\x1b[38;2;255;62;48m"@, "\x1b[38;2;255;132;32m"@, "\x1b[38;2;255;226;92m"@),
        Severity::Warm => ("\x1b[38;2;255;120;38m"@, "\x1b[38;2;255;184;48m"@, "\x1b[38;2;255;235;120m"@),
        Severity::Cool => ("\x1b[38;2;54;143;255m"@, "\x1b[38;2;57;205;255m"@, "\x1b[38;2;155;240;255m"@),
    }
}

/// The spark above the flame in an animation frame.
pub open spec fn spark_text(frame: nat) -> Seq<char> {
    if frame % 4 == 0 {
        "        ·"@
    } else if frame % 4 == 1 {
        "      ·"@
    } else if frame % 4 == 2 {
        "         ·"@
    } else {
        "       ˙"@
    }
}

/// The tip of the flame in an animation frame.
pub open spec fn lean_text(frame: nat) -> Seq<char> {
    if frame % 2 == 0 {
        "    ╭╯╰╮"@
    } else {
        "     ╭╯╰╮"@
    }
}

/// How many of the ten heat bar cells are filled: the CPU share, capped at
/// 100%, in tenths, rounded half up.
pub open spec fn filled_cells(cpu_hundredths: nat) -> nat {
    let c = if cpu_hundredths > 10000 {
        10000
    } else {
        cpu_hundredths
    };
    (c + 500) / 1000
}

/// `k` copies of `s`.
pub open spec fn repeat(s: Seq<char>, k: nat) -> Seq<char>
    decreases k,
{
    if k == 0 {
        Seq::empty()
    } else {
        repeat(s, (k - 1) as nat) + s
    }
}

fn repeat_chars(s: &str, k: usize) -> (r: Vec<char>)
    ensures
        r@ == repeat(s@, k as nat),
{
    let sv = lit(s);
    let mut r: Vec<char> = Vec::new();
    let mut i: usize = 0;
    while i < k
        invariant
            i <= k,
            sv@ == s@,
            r@ == repeat(s@, i as nat),
        decreases k - i,
    {
        append_chars(&mut r, &sv);
        i += 1;
    }
    r
}

/// The ten-cell heat bar.
pub open spec fn heat_bar_text(cpu_hundredths: nat) -> Seq<char> {
    let f = filled_cells(cpu_hundredths);
    repeat("■"@, f) + repeat("·"@, (10 - f) as nat)
}

/// The seven lines of the flame: coloured by severity, animated by frame,
/// with the CPU percentage and heat bar beside its base.
pub open spec fn flame_text(severity: Severity, cpu_hundredths: nat, frame: nat) -> Seq<Seq<char>> {
    let (outer, middle, core) = flame_colors(severity);
    let reset = reset_text();
    seq![
        outer + spark_text(frame) + reset,
        outer + lean_text(frame) + reset,
        outer + "   ╭╯"@ + middle + "░▒"@ + outer + "╰╮"@ + reset,
        outer + "  ╭╯"@ + middle + "▒▓▓▒"@ + outer + "╰╮"@ + reset,
        outer + "  │"@ + middle + "▒▓"@ + core + "██"@ + middle + "▓▒"@ + outer + "│"@ + reset,
        outer + "  ╰╮"@ + middle + "▓"@ + core + "████"@ + middle + "▓"@ + outer + "╭╯"@ + reset,
        outer + "   ╰━"@ + core + "██"@ + outer + "━╯"@ + reset + "  "@ + bold_text() + fixed0(
            cpu_hundredths,
            100,
        ) + "%"@ + reset + " "@ + middle + heat_bar_text(cpu_hundredths) + reset,
    ]
}

fn push_lit(r: &mut Vec<char>, s: &str)
    ensures
        final(r)@ == old(r)@ + s@,
{
    append_chars(r, &lit(s));
}

fn flame_colors_of(severity: Severity) -> (r: (&'static str, &'static str, &'static str))
    ensures
        (r.0@, r.1@, r.2@) == flame_colors(severity),
{
    match severity {
        Severity::Hot => ("\x1b[38;2;255;62;48m", "\x1b[38;2;255;132;32m", "\x1b[38;2;255;226;92m"),
        Severity::Warm => ("\x1b[38;2;255;120;38m", "\x1b[38;2;255;184;48m", "\x1b[38;2;255;235;120m"),
        Severity::Cool => ("\x1b[38;2;54;143;255m", "\x1b[38;2;57;205;255m", "\x1b[38;2;155;240;255m"),
    }
}

/// The seven lines of the flame.
pub fn flame(severity: Severity, cpu_hundredths: u64, frame: u64) -> (r: Vec<String>)
    ensures
        r@.len() == 7,
        forall|i: int| 0 <= i < 7 ==> #[trigger] r@[i]@ == flame_text(severity, cpu_hundredths as nat, frame as nat)[i],
{
    let (outer, middle, core) = flame_colors_of(severity);
    let reset = "\x1b[0m";
    let spark = match frame % 4 {
        0 => "        ·",
        1 => "      ·",
        2 => "         ·",
        _ => "       ˙",
    };
    let lean = if frame % 2 == 0 {
        "    ╭╯╰╮"
    } else {
        "     ╭╯╰╮"
    };
    let c = if cpu_hundredths > 10000 {
        10000
    } else {
        cpu_hundredths
    };
    let filled = ((c + 500) / 1000) as usize;
    let mut bar = repeat_chars("■", filled);
    append_chars(&mut bar, &repeat_chars("·", 10 - filled));
    let label = fixed0_chars(cpu_hundredths, 100);
    let ghost want = flame_text(severity, cpu_hundredths as nat, frame as nat);
    let mut l0 = lit(outer);
    push_lit(&mut l0, spark);
    push_lit(&mut l0, reset);
    let mut l1 = lit(outer);
    push_lit(&mut l1, lean);
    push_lit(&mut l1, reset);
    let mut l2 = lit(outer);
    push_lit(&mut l2, "   ╭╯");
    push_lit(&mut l2, middle);
    push_lit(&mut l2, "░▒");
    push_lit(&mut l2, outer);
    push_lit(&mut l2, "╰╮");
    push_lit(&mut l2, reset);
    let mut l3 = lit(outer);
    push_lit(&mut l3, "  ╭╯");
    push_lit(&mut l3, middle);
    push_lit(&mut l3, "▒▓▓▒");
    push_lit(&mut l3, outer);
    push_lit(&mut l3, "╰╮");
    push_lit(&mut l3, reset);
    let mut l4 = lit(outer);
    push_lit(&mut l4, "  │");
    push_lit(&mut l4, middle);
    push_lit(&mut l4, "▒▓");
    push_lit(&mut l4, core);
    push_lit(&mut l4, "██");
    push_lit(&mut l4, middle);
    push_lit(&mut l4, "▓▒");
    push_lit(&mut l4, outer);
    push_lit(&mut l4, "│");
    push_lit(&mut l4, reset);
    let mut l5 = lit(outer);
    push_lit(&mut l5, "  ╰╮");
    push_lit(&mut l5, middle);
    push_lit(&mut l5, "▓");
    push_lit(&mut l5, core);
    push_lit(&mut l5, "████");
    push_lit(&mut l5, middle);
    push_lit(&mut l5, "▓");
    push_lit(&mut l5, outer);
    push_lit(&mut l5, "╭╯");
    push_lit(&mut l5, reset);
    let mut l6 = lit(outer);
    push_lit(&mut l6, "   ╰━");
    push_lit(&mut l6, core);
    push_lit(&mut l6, "██");
    push_lit(&mut l6, outer);
    push_lit(&mut l6, "━╯");
    push_lit(&mut l6, reset);
    push_lit(&mut l6, "  ");
    push_lit(&mut l6, "\x1b[1m");
    append_chars(&mut l6, &label);
    push_lit(&mut l6, "%");
    push_lit(&mut l6, reset);
    push_lit(&mut l6, " ");
    push_lit(&mut l6, middle);
    append_chars(&mut l6, &bar);
    push_lit(&mut l6, reset);
    assert(spark@ == spark_text(frame as nat));
    assert(lean@ == lean_text(frame as nat));
    assert(l0@ == want[0]);
    assert(l1@ == want[1]);
    assert(l2@ == want[2]);
    assert(l3@ == want[3]);
    assert(l4@ == want[4]);
    assert(l5@ == want[5]);
    assert(l6@ == want[6]);
    let lines: Vec<Vec<char>> = vec![l0, l1, l2, l3, l4, l5, l6];
    let mut r: Vec<String> = Vec::new();
    let mut i: usize = 0;
    while i < 7
        invariant
            i <= 7,
            lines@.len() == 7,
            r@.len() == i,
            forall|k: int| 0 <= k < i ==> #[trigger] r@[k]@ == lines@[k]@,
        decreases 7 - i,
    {
        r.push(string_of(&lines[i]));
        i += 1;
    }
    r
}


// ---------------------------------------------------------------------------
// The plain report
// ---------------------------------------------------------------------------

/// One `- title: detail` line per finding.
pub open spec fn findings_text(fs: Seq<FindingView>) -> Seq<char>
    decreases fs.len(),
{
    if fs.len() == 0 {
        Seq::empty()
    } else {
        findings_text(fs.drop_last()) + "- "@ + fs.last().1 + ": "@ + fs.last().2 + "\n"@
    }
}

/// One application row of the plain report.
pub open spec fn plain_row_text(a: ApplicationRow) -> Seq<char> {
    pad_right(truncate_text(a.name@, 24), 24) + " "@ + pad_left(fixed1(a.cpu_hundredths as nat, 100), 6)
        + "% "@ + pad_left(fixed1(a.memory_bytes as nat, MIB as nat), 6) + "M "@ + pad_left(
        io_rate_text(a.io_bytes_per_sec as nat),
        8,
    ) + " "@ + pad_left(duration_text(a.runtime_secs as nat), 8) + "  "@ + dec(a.pids@.len())
        + "\n"@
}

/// The application rows of the plain report.
pub open spec fn plain_rows_text(apps: Seq<ApplicationRow>) -> Seq<char>
    decreases apps.len(),
{
    if apps.len() == 0 {
        Seq::empty()
    } else {
        plain_rows_text(apps.drop_last()) + plain_row_text(apps.last())
    }
}

/// The header of the application table in the plain report.
pub open spec fn plain_table_header() -> Seq<char> {
    "\nAPPLICATION                CPU    MEM     I/O/s      AGE  PROCS\n"@
}

/// The plain report: a summary line, the findings, and the first `top` applications.
pub open spec fn plain_text(s: Snapshot, top: nat) -> Seq<char> {
    let fs = diagnosis_of(s);
    let shown = if top < s.applications@.len() {
        s.applications@.take(top as int)
    } else {
        s.applications@
    };
    "whyhot: "@ + severity_label(overall_of(fs)) + " | CPU "@ + fixed0(s.cpu_hundredths as nat, 100)
        + "% | memory "@ + fixed0(s.memory_hundredths as nat, 100) + "% | load "@ + fixed1(
        s.load_hundredths[0] as nat,
        100,
    ) + "\n"@ + findings_text(fs) + plain_table_header() + plain_rows_text(shown)
}

fn push_plain_row(r: &mut Vec<char>, a: &ApplicationRow)
    ensures
        final(r)@ == old(r)@ + plain_row_text(*a),
{
    let name = truncate(&chars_of(a.name.as_str()), 24);
    let cpu = fixed1_chars(a.cpu_hundredths, 100);
    let mem = fixed1_chars(a.memory_bytes, MIB);
    let io = io_rate(a.io_bytes_per_sec);
    let age = duration_chars(a.runtime_secs);
    let count = decimal(a.pids.len() as u64);
    let ghost p1 = pad_right(name@, 24);
    let ghost p2 = pad_left(cpu@, 6);
    let ghost p3 = pad_left(mem@, 6);
    let ghost p4 = pad_left(io@, 8);
    let ghost p5 = pad_left(age@, 8);
    assert(plain_row_text(*a) == p1 + " "@ + p2 + "% "@ + p3 + "M "@ + p4 + " "@ + p5 + "  "@ + count@ + "\n"@);
    push_padded_right(r, &name, 24);
    push_lit(r, " ");
    push_padded_left(r, &cpu, 6);
    push_lit(r, "% ");
    push_padded_left(r, &mem, 6);
    push_lit(r, "M ");
    push_padded_left(r, &io, 8);
    push_lit(r, " ");
    push_padded_left(r, &age, 8);
    push_lit(r, "  ");
    append_chars(r, &count);
    push_lit(r, "\n");
}

/// The report printed by `--once` and when not on a terminal.
pub fn plain(snapshot: &Snapshot, top: usize) -> (r: String)
    ensures
        r@ == plain_text(*snapshot, top as nat),
{
    let findings = diagnose(snapshot);
    let ghost fs = views(findings@);
    let mut out = lit("whyhot: ");
    push_lit(&mut out, overall(&findings).label());
    push_lit(&mut out, " | CPU ");
    append_chars(&mut out, &fixed0_chars(snapshot.cpu_hundredths, 100));
    push_lit(&mut out, "% | memory ");
    append_chars(&mut out, &fixed0_chars(snapshot.memory_hundredths, 100));
    push_lit(&mut out, "% | load ");
    append_chars(&mut out, &fixed1_chars(snapshot.load_hundredths[0], 100));
    push_lit(&mut out, "\n");
    let ghost head = out@;
    let mut i: usize = 0;
    while i < findings.len()
        invariant
            i <= findings.len(),
            fs == views(findings@),
            out@ == head + findings_text(fs.take(i as int)),
        decreases findings.len() - i,
    {
        assert(fs.take(i + 1).drop_last() == fs.take(i as int));
        assert(fs.take(i + 1).last() == findings@[i as int]@);
        push_lit(&mut out, "- ");
        append_chars(&mut out, &chars_of(findings[i].title.as_str()));
        push_lit(&mut out, ": ");
        append_chars(&mut out, &chars_of(findings[i].detail.as_str()));
        push_lit(&mut out, "\n");
        i += 1;
    }
    assert(fs.take(findings.len() as int) == fs);
    push_lit(&mut out, "\nAPPLICATION                CPU    MEM     I/O/s      AGE  PROCS\n");
    let apps = &snapshot.applications;
    let n = if top < apps.len() {
        top
    } else {
        apps.len()
    };
    let ghost shown = apps@.take(n as int);
    let ghost mid = out@;
    let mut j: usize = 0;
    while j < n
        invariant
            j <= n <= apps@.len(),
            shown == apps@.take(n as int),
            out@ == mid + plain_rows_text(shown.take(j as int)),
        decreases n - j,
    {
        assert(shown.take(j + 1).drop_last() == shown.take(j as int));
        assert(shown.take(j + 1).last() == apps@[j as int]);
        push_plain_row(&mut out, &apps[j]);
        j += 1;
    }
    assert(shown.take(n as int) == shown);
    assert(n == apps@.len() ==> shown == apps@);
    string_of(&out)
}


// ---------------------------------------------------------------------------
// The live screen
// ---------------------------------------------------------------------------

/// The battery part of the screen's status line.
pub open spec fn battery_text(percent: Option<u8>, charging: Option<bool>) -> Seq<char> {
    match percent {
        Some(p) => if charging == Some(true) {
            dec(p as nat) + "% charging"@
        } else {
            dec(p as nat) + "% battery"@
        },
        None => "battery unknown"@,
    }
}

/// The status line at the top of the screen.
pub open spec fn status_line_text(s: Snapshot, status: Severity) -> Seq<char> {
    "\x1b[H\x1b[2J"@ + bold_text() + "whyhot"@ + reset_text() + "  "@ + color_text(status)
        + severity_label(status) + reset_text() + "  CPU "@ + fixed0(s.cpu_hundredths as nat, 100)
        + "%  MEM "@ + fixed0(s.memory_hundredths as nat, 100) + "%  LOAD "@ + fixed1(
        s.load_hundredths[0] as nat,
        100,
    ) + "  "@ + battery_text(s.battery_percent, s.charging) + "\n"@
}

/// The first `k` lines of `ls`, each followed by a newline.
pub open spec fn newline_lines(ls: Seq<Seq<char>>, k: nat) -> Seq<char>
    decreases k,
{
    if k == 0 || k > ls.len() {
        Seq::empty()
    } else {
        newline_lines(ls, (k - 1) as nat) + ls[k - 1] + "\n"@
    }
}

/// The first `k` title lines of a finding: coloured, the first with a bullet.
pub open spec fn title_lines(ls: Seq<Seq<char>>, color: Seq<char>, k: nat) -> Seq<char>
    decreases k,
{
    if k == 0 || k > ls.len() {
        Seq::empty()
    } else {
        title_lines(ls, color, (k - 1) as nat) + color + (if k == 1 {
            "● "@
        } else {
            "  "@
        }) + ls[k - 1] + reset_text() + "\n"@
    }
}

/// The first `k` detail lines of a finding, indented.
pub open spec fn detail_lines(ls: Seq<Seq<char>>, k: nat) -> Seq<char>
    decreases k,
{
    if k == 0 || k > ls.len() {
        Seq::empty()
    } else {
        detail_lines(ls, (k - 1) as nat) + "    "@ + ls[k - 1] + "\n"@
    }
}

/// `a - b`, or 0 when `b` is larger.
pub open spec fn sat_sub(a: nat, b: nat) -> nat {
    if a >= b {
        (a - b) as nat
    } else {
        0
    }
}

/// `a`, or `b` when `b` is larger.
pub open spec fn at_least(a: nat, b: nat) -> nat {
    if a >= b {
        a
    } else {
        b
    }
}

/// One finding on screen: its title wrapped two columns short of the width,
/// its detail four short, neither narrower than twenty.
pub open spec fn finding_screen_text(f: FindingView, width: nat) -> Seq<char> {
    let titles = wrap_text(f.1, at_least(sat_sub(width, 2), 20));
    let details = wrap_text(f.2, at_least(sat_sub(width, 4), 20));
    title_lines(titles, color_text(f.0), titles.len()) + detail_lines(details, details.len())
}

/// The number of screen lines a finding takes.
pub open spec fn finding_screen_lines(f: FindingView, width: nat) -> nat {
    wrap_text(f.1, at_least(sat_sub(width, 2), 20)).len() + wrap_text(
        f.2,
        at_least(sat_sub(width, 4), 20),
    ).len()
}

/// The findings on screen.
pub open spec fn findings_screen_text(fs: Seq<FindingView>, width: nat) -> Seq<char>
    decreases fs.len(),
{
    if fs.len() == 0 {
        Seq::empty()
    } else {
        findings_screen_text(fs.drop_last(), width) + finding_screen_text(fs.last(), width)
    }
}

/// The number of screen lines the findings take.
pub open spec fn findings_screen_lines(fs: Seq<FindingView>, width: nat) -> nat
    decreases fs.len(),
{
    if fs.len() == 0 {
        0
    } else {
        findings_screen_lines(fs.drop_last(), width) + finding_screen_lines(fs.last(), width)
    }
}

/// One row of the application table on screen.
pub open spec fn screen_row_text(a: ApplicationRow, marked: bool, width: nat) -> Seq<char> {
    let name_width = if sat_sub(width, 48) < 24 {
        sat_sub(width, 48)
    } else {
        24
    };
    (if marked {
        "›"@
    } else {
        " "@
    }) + "  "@ + pad_right(truncate_text(a.name@, name_width), 24) + " "@ + pad_left(
        fixed1(a.cpu_hundredths as nat, 100),
        6,
    ) + "% "@ + pad_left(fixed1(a.memory_bytes as nat, MIB as nat), 6) + "M "@ + pad_left(
        io_rate_text(a.io_bytes_per_sec as nat),
        8,
    ) + " "@ + pad_left(duration_text(a.runtime_secs as nat), 9) + " "@ + pad_left(
        dec(a.pids@.len()),
        5,
    ) + "\n"@
}

/// The first `k` rows of the application table on screen.
pub open spec fn screen_rows_text(apps: Seq<ApplicationRow>, k: nat, selected: nat, width: nat) -> Seq<char>
    decreases k,
{
    if k == 0 || k > apps.len() {
        Seq::empty()
    } else {
        screen_rows_text(apps, (k - 1) as nat, selected, width) + screen_row_text(
            apps[k - 1],
            k - 1 == selected,
            width,
        )
    }
}

/// The header of the application table on screen.
pub open spec fn screen_table_header() -> Seq<char> {
    "   APPLICATION                  CPU     MEM    I/O/s       AGE PROCS\n"@
}

/// How many application rows fit: at most `top`, within the height left after
/// fourteen lines and the diagnosis, and at least one.
pub open spec fn visible_rows(top: nat, height: nat, diagnosis_lines: nat, count: nat) -> nat {
    let fit = sat_sub(height, 14 + diagnosis_lines);
    let rows = at_least(if top < fit { top } else { fit }, 1);
    if rows < count {
        rows
    } else {
        count
    }
}

/// The application part of the screen when it is shown.
pub open spec fn applications_screen_text(
    s: Snapshot,
    top: nat,
    selected: nat,
    width: nat,
    height: nat,
    diagnosis_lines: nat,
) -> Seq<char> {
    let apps = s.applications@;
    "\n"@ + bold_text() + "Top applications"@ + reset_text() + "\n"@ + screen_table_header()
        + screen_rows_text(apps, visible_rows(top, height, diagnosis_lines, apps.len()), selected, width)
        + (if selected < apps.len() {
        "\n"@ + bold_text() + "Selected"@ + reset_text() + "  "@ + apps[selected as int].name@
            + "\n"@ + "    PIDs: "@ + join(apps[selected as int].pids@.map_values(|p: u32| dec(p as nat)), ", "@)
            + "\n"@
    } else {
        Seq::empty()
    })
}

/// The hint shown when the application list is hidden.
pub open spec fn hidden_applications_text() -> Seq<char> {
    "\n\x1b[2mPress p to inspect applications and their processes.\x1b[0m\n"@
}

/// The live screen.
pub open spec fn render_text(
    s: Snapshot,
    top: nat,
    selected: nat,
    width: nat,
    height: nat,
    frame: nat,
    show_processes: bool,
) -> Seq<char> {
    let fs = diagnosis_of(s);
    let status = overall_of(fs);
    let rule_width = if width < 100 {
        width
    } else {
        100
    };
    status_line_text(s, status) + newline_lines(flame_text(status, s.cpu_hundredths as nat, frame), 7)
        + repeat("─"@, rule_width) + "\n"@ + bold_text() + "Diagnosis"@ + reset_text() + "\n"@
        + findings_screen_text(fs, width) + (if show_processes {
        applications_screen_text(s, top, selected, width, height, 1 + findings_screen_lines(fs, width))
    } else {
        hidden_applications_text()
    }) + "\n\x1b[2m q quit · r refresh · p applications · j/k select · "@ + dec(s.logical_cpus as nat)
        + " logical CPUs \x1b[0m"@
}

fn push_battery(out: &mut Vec<char>, percent: Option<u8>, charging: Option<bool>)
    ensures
        final(out)@ == old(out)@ + battery_text(percent, charging),
{
    match percent {
        Some(p) => {
            append_chars(out, &decimal(p as u64));
            if charging == Some(true) {
                push_lit(out, "% charging");
            } else {
                push_lit(out, "% battery");
            }
        },
        None => push_lit(out, "battery unknown"),
    }
}

fn push_status_line(out: &mut Vec<char>, s: &Snapshot, status: Severity)
    ensures
        final(out)@ == old(out)@ + status_line_text(*s, status),
{
    let cpu = fixed0_chars(s.cpu_hundredths, 100);
    let mem = fixed0_chars(s.memory_hundredths, 100);
    let load = fixed1_chars(s.load_hundredths[0], 100);
    let mut line = lit("\x1b[H\x1b[2J");
    push_lit(&mut line, "\x1b[1m");
    push_lit(&mut line, "whyhot");
    push_lit(&mut line, "\x1b[0m");
    push_lit(&mut line, "  ");
    push_lit(&mut line, color(status));
    push_lit(&mut line, status.label());
    push_lit(&mut line, "\x1b[0m");
    let ghost first = line@;
    assert(first == "\x1b[H\x1b[2J"@ + bold_text() + "whyhot"@ + reset_text() + "  "@ + color_text(status)
        + severity_label(status) + reset_text());
    push_lit(&mut line, "  CPU ");
    append_chars(&mut line, &cpu);
    push_lit(&mut line, "%  MEM ");
    append_chars(&mut line, &mem);
    push_lit(&mut line, "%  LOAD ");
    append_chars(&mut line, &load);
    push_lit(&mut line, "  ");
    push_battery(&mut line, s.battery_percent, s.charging);
    push_lit(&mut line, "\n");
    assert(line@ == status_line_text(*s, status));
    append_chars(out, &line);
}

fn push_finding_screen(out: &mut Vec<char>, title: &str, detail: &str, severity: Severity, width: usize) -> (n: u128)
    ensures
        final(out)@ == old(out)@ + finding_screen_text((severity, title@, detail@), width as nat),
        n == finding_screen_lines((severity, title@, detail@), width as nat),
{
    let tw = if width >= 2 && width - 2 >= 20 {
        width - 2
    } else {
        20
    };
    let dw = if width >= 4 && width - 4 >= 20 {
        width - 4
    } else {
        20
    };
    let titles = wrap_words(title, tw);
    let details = wrap_words(detail, dw);
    let ghost tl = wrap_text(title@, tw as nat);
    let ghost dl = wrap_text(detail@, dw as nat);
    let ghost start = out@;
    let mut k: usize = 0;
    while k < titles.len()
        invariant
            k <= titles@.len() == tl.len(),
            tl == wrap_text(title@, tw as nat),
            forall|i: int| 0 <= i < titles@.len() ==> #[trigger] titles@[i]@ == tl[i],
            out@ == start + title_lines(tl, color_text(severity), k as nat),
        decreases titles.len() - k,
    {
        push_lit(out, color(severity));
        if k == 0 {
            push_lit(out, "● ");
        } else {
            push_lit(out, "  ");
        }
        append_chars(out, &chars_of(titles[k].as_str()));
        push_lit(out, "\x1b[0m");
        push_lit(out, "\n");
        k += 1;
    }
    let ghost mid = out@;
    let mut j: usize = 0;
    while j < details.len()
        invariant
            j <= details@.len() == dl.len(),
            dl == wrap_text(detail@, dw as nat),
            forall|i: int| 0 <= i < details@.len() ==> #[trigger] details@[i]@ == dl[i],
            out@ == mid + detail_lines(dl, j as nat),
        decreases details.len() - j,
    {
        push_lit(out, "    ");
        append_chars(out, &chars_of(details[j].as_str()));
        push_lit(out, "\n");
        j += 1;
    }
    assert(tw as nat == at_least(sat_sub(width as nat, 2), 20));
    assert(dw as nat == at_least(sat_sub(width as nat, 4), 20));
    titles.len() as u128 + details.len() as u128
}

fn push_screen_row(out: &mut Vec<char>, a: &ApplicationRow, marked: bool, width: usize)
    ensures
        final(out)@ == old(out)@ + screen_row_text(*a, marked, width as nat),
{
    let name_width: usize = if width >= 48 && width - 48 < 24 {
        width - 48
    } else if width < 48 {
        0
    } else {
        24
    };
    let name = truncate(&chars_of(a.name.as_str()), name_width);
    let cpu = fixed1_chars(a.cpu_hundredths, 100);
    let mem = fixed1_chars(a.memory_bytes, MIB);
    let io = io_rate(a.io_bytes_per_sec);
    let age = duration_chars(a.runtime_secs);
    let count = decimal(a.pids.len() as u64);
    let ghost marker = if marked {
        "›"@
    } else {
        " "@
    };
    assert(screen_row_text(*a, marked, width as nat) == marker + "  "@ + pad_right(name@, 24) + " "@
        + pad_left(cpu@, 6) + "% "@ + pad_left(mem@, 6) + "M "@ + pad_left(io@, 8) + " "@ + pad_left(
        age@,
        9,
    ) + " "@ + pad_left(count@, 5) + "\n"@);
    if marked {
        push_lit(out, "›");
    } else {
        push_lit(out, " ");
    }
    push_lit(out, "  ");
    push_padded_right(out, &name, 24);
    push_lit(out, " ");
    push_padded_left(out, &cpu, 6);
    push_lit(out, "% ");
    push_padded_left(out, &mem, 6);
    push_lit(out, "M ");
    push_padded_left(out, &io, 8);
    push_lit(out, " ");
    push_padded_left(out, &age, 9);
    push_lit(out, " ");
    push_padded_left(out, &count, 5);
    push_lit(out, "\n");
}


fn pid_list(pids: &[u32]) -> (r: Vec<char>)
    ensures
        r@ == join(pids@.map_values(|p: u32| dec(p as nat)), ", "@),
{
    let mut parts: Vec<Vec<char>> = Vec::new();
    let mut i: usize = 0;
    while i < pids.len()
        invariant
            i <= pids.len(),
            char_seqs(parts@) == pids@.take(i as int).map_values(|p: u32| dec(p as nat)),
        decreases pids.len() - i,
    {
        let d = decimal(pids[i] as u64);
        let ghost before = parts@;
        parts.push(d);
        assert(char_seqs(parts@) =~= char_seqs(before).push(dec(pids@[i as int] as nat)));
        assert(pids@.take(i + 1) == pids@.take(i as int).push(pids@[i as int]));
        assert(pids@.take(i + 1).map_values(|p: u32| dec(p as nat)) =~= pids@.take(
            i as int,
        ).map_values(|p: u32| dec(p as nat)).push(dec(pids@[i as int] as nat)));
        i += 1;
    }
    assert(pids@.take(pids.len() as int) == pids@);
    crate::text::join_chars(&parts, &lit(", "))
}

fn row_count(top: usize, height: usize, lines: u128, count: usize, Ghost(exact): Ghost<nat>) -> (n: usize)
    requires
        lines == (if exact > u128::MAX {
            u128::MAX as nat
        } else {
            exact
        }),
    ensures
        n == visible_rows(top as nat, height as nat, 1 + exact, count as nat),
        n <= count,
{
    let fit: usize = if lines <= height as u128 && height as u128 - lines >= 15 {
        (height as u128 - lines - 15) as usize
    } else {
        0
    };
    assert(fit == sat_sub(height as nat, 14 + (1 + exact)));
    let smaller = if top < fit {
        top
    } else {
        fit
    };
    let rows = if smaller >= 1 {
        smaller
    } else {
        1
    };
    if rows < count {
        rows
    } else {
        count
    }
}

fn push_selected(out: &mut Vec<char>, apps: &Vec<ApplicationRow>, selected: usize)
    ensures
        final(out)@ == old(out)@ + (if selected < apps@.len() {
            "\n"@ + bold_text() + "Selected"@ + reset_text() + "  "@ + apps@[selected as int].name@
                + "\n"@ + "    PIDs: "@ + join(apps@[selected as int].pids@.map_values(|p: u32| dec(p as nat)), ", "@)
                + "\n"@
        } else {
            Seq::empty()
        }),
{
    if selected < apps.len() {
        let app = &apps[selected];
        push_lit(out, "\n");
        push_lit(out, "\x1b[1m");
        push_lit(out, "Selected");
        push_lit(out, "\x1b[0m");
        push_lit(out, "  ");
        append_chars(out, &chars_of(app.name.as_str()));
        push_lit(out, "\n");
        push_lit(out, "    PIDs: ");
        append_chars(out, &pid_list(app.pids.as_slice()));
        push_lit(out, "\n");
    } else {
        assert(out@ + Seq::<char>::empty() == out@);
    }
}

fn push_applications(
    out: &mut Vec<char>,
    s: &Snapshot,
    top: usize,
    selected: usize,
    width: usize,
    height: usize,
    lines: u128,
    Ghost(exact): Ghost<nat>,
)
    requires
        lines == (if exact > u128::MAX {
            u128::MAX as nat
        } else {
            exact
        }),
    ensures
        final(out)@ == old(out)@ + applications_screen_text(*s, top as nat, selected as nat, width as nat, height as nat, 1 + exact),
{
    let apps = &s.applications;
    let n = row_count(top, height, lines, apps.len(), Ghost(exact));
    let ghost head = "\n"@ + bold_text() + "Top applications"@ + reset_text() + "\n"@ + screen_table_header();
    push_lit(out, "\n");
    push_lit(out, "\x1b[1m");
    push_lit(out, "Top applications");
    push_lit(out, "\x1b[0m");
    push_lit(out, "\n");
    push_lit(out, "   APPLICATION                  CPU     MEM    I/O/s       AGE PROCS\n");
    assert(out@ == old(out)@ + head);
    let ghost start = out@;
    let mut k: usize = 0;
    while k < n
        invariant
            k <= n <= apps@.len(),
            out@ == start + screen_rows_text(apps@, k as nat, selected as nat, width as nat),
        decreases n - k,
    {
        push_screen_row(out, &apps[k], k == selected, width);
        k += 1;
    }
    push_selected(out, apps, selected);
}

/// The live screen: status line, flame, diagnosis, and either the
/// application table or a hint, then the key help.
pub fn render(
    snapshot: &Snapshot,
    top: usize,
    selected: usize,
    width: usize,
    height: usize,
    frame: u64,
    show_processes: bool,
) -> (r: String)
    ensures
        r@ == render_text(*snapshot, top as nat, selected as nat, width as nat, height as nat, frame as nat, show_processes),
{
    let findings = diagnose(snapshot);
    let ghost fs = views(findings@);
    let status = overall(&findings);
    let mut out: Vec<char> = Vec::new();
    push_status_line(&mut out, snapshot, status);
    let fl = flame(status, snapshot.cpu_hundredths, frame);
    let ghost fl_text = flame_text(status, snapshot.cpu_hundredths as nat, frame as nat);
    let ghost start = out@;
    let mut k: usize = 0;
    while k < 7
        invariant
            k <= 7,
            fl@.len() == 7,
            fl_text.len() == 7,
            forall|i: int| 0 <= i < 7 ==> #[trigger] fl@[i]@ == fl_text[i],
            out@ == start + newline_lines(fl_text, k as nat),
        decreases 7 - k,
    {
        append_chars(&mut out, &chars_of(fl[k].as_str()));
        push_lit(&mut out, "\n");
        k += 1;
    }
    let rule_width = if width < 100 {
        width
    } else {
        100
    };
    append_chars(&mut out, &repeat_chars("─", rule_width));
    push_lit(&mut out, "\n");
    push_lit(&mut out, "\x1b[1m");
    push_lit(&mut out, "Diagnosis");
    push_lit(&mut out, "\x1b[0m");
    push_lit(&mut out, "\n");
    let ghost mid = out@;
    let mut lines: u128 = 0;
    let mut i: usize = 0;
    while i < findings.len()
        invariant
            i <= findings.len(),
            fs == views(findings@),
            out@ == mid + findings_screen_text(fs.take(i as int), width as nat),
            lines == (if findings_screen_lines(fs.take(i as int), width as nat) > u128::MAX {
                u128::MAX as nat
            } else {
                findings_screen_lines(fs.take(i as int), width as nat)
            }),
        decreases findings.len() - i,
    {
        assert(fs.take(i + 1).drop_last() == fs.take(i as int));
        assert(fs.take(i + 1).last() == findings@[i as int]@);
        let f = &findings[i];
        let n = push_finding_screen(&mut out, f.title.as_str(), f.detail.as_str(), f.severity, width);
        lines = lines.saturating_add(n);
        i += 1;
    }
    assert(fs.take(findings.len() as int) == fs);
    if show_processes {
        push_applications(&mut out, snapshot, top, selected, width, height, lines, Ghost(findings_screen_lines(fs, width as nat)));
    } else {
        push_lit(&mut out, "\n\x1b[2mPress p to inspect applications and their processes.\x1b[0m\n");
    }
    push_lit(&mut out, "\n\x1b[2m q quit · r refresh · p applications · j/k select · ");
    append_chars(&mut out, &decimal(snapshot.logical_cpus as u64));
    push_lit(&mut out, " logical CPUs \x1b[0m");
    string_of(&out)
}

} // verus!
