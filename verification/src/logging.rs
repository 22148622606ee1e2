//! Bounded diagnostics: the lines that go out, their size and their rate.
//!
//! Lifecycle events always go out; routine warnings are limited. Writing the
//! lines is left to the caller, who does not hold up a DNS worker for it.
use crate::text::{self, chars_of, concat, decimal_text};
use vstd::prelude::*;

verus! {

pub const INTERVAL: u64 = 5_000_000_000;

pub const BURST: u32 = 20;

pub const MAX_LINE: usize = 2048;

/// How many octets a character takes in UTF-8.
pub open spec fn width(c: char) -> int {
    vstd::utf8::encode_scalar(c as u32).len() as int
}

/// How many characters of a text fit into so many octets of UTF-8.
pub open spec fn fitting(text: Seq<char>, room: int) -> nat
    decreases text.len(),
{
    if text.len() == 0 || width(text[0]) > room {
        0
    } else {
        1 + fitting(text.drop_first(), room - width(text[0]))
    }
}

/// A text cut between characters so that it fits into so many octets of UTF-8.
pub open spec fn clipped(text: Seq<char>, room: int) -> Seq<char> {
    text.take(fitting(text, room) as int)
}

/// A line of output, and the lane that it takes.
pub struct LineView {
    pub text: Seq<char>,
    pub important: bool,
}

/// A line of output, and the lane that it takes: lifecycle events have a lane of
/// their own, which routine warnings cannot fill.
#[derive(Debug)]
pub struct Line {
    pub text: String,
    pub important: bool,
}

impl View for Line {
    type V = LineView;

    open spec fn view(&self) -> LineView {
        LineView { text: self.text@, important: self.important }
    }
}

/// A line of output.
pub open spec fn line_of(level: Seq<char>, message: Seq<char>, important: bool) -> LineView {
    LineView { text: clipped(level + " "@ + message, MAX_LINE as int), important }
}

/// A clipped text fits, and one more character would not.
pub proof fn clipped_text_fits(text: Seq<char>, room: int)
    requires
        room >= 0,
    ensures
        fitting(text, room) <= text.len(),
        vstd::utf8::encode_utf8(clipped(text, room)).len() <= room,
        fitting(text, room) < text.len() ==> vstd::utf8::encode_utf8(
            text.take(fitting(text, room) as int + 1),
        ).len() > room,
    decreases text.len(),
{
    if text.len() > 0 {
        let rest = text.drop_first();
        let w = width(text[0]);
        assert(text.take(1).drop_first() =~= Seq::<char>::empty());
        assert(text.take(1)[0] == text[0]);
        reveal_with_fuel(vstd::utf8::encode_utf8, 2);
        if w <= room {
            clipped_text_fits(rest, room - w);
            let n = fitting(rest, room - w) as int;
            assert(text.take(n + 1)[0] == text[0]);
            assert(text.take(n + 1).drop_first() =~= rest.take(n));
            if n < rest.len() {
                assert(text.take(n + 2)[0] == text[0]);
                assert(text.take(n + 2).drop_first() =~= rest.take(n + 1));
            }
        }
    }
}

/// A text that fits is not cut.
pub proof fn fitting_text_is_whole(text: Seq<char>, room: int)
    requires
        vstd::utf8::encode_utf8(text).len() <= room,
    ensures
        fitting(text, room) == text.len(),
        clipped(text, room) == text,
    decreases text.len(),
{
    if text.len() > 0 {
        fitting_text_is_whole(text.drop_first(), room - width(text[0]));
    }
    assert(text.take(text.len() as int) =~= text);
}

fn char_width(c: char) -> (r: usize)
    ensures
        r == width(c),
        r <= 4,
{
    let scalar: u32 = c as u32;
    if scalar <= 0x7f {
        1
    } else if scalar <= 0x7ff {
        2
    } else if scalar <= 0xffff {
        3
    } else {
        4
    }
}

/// Cuts a text between characters.
fn clip(text: &str, room: usize) -> (r: String)
    ensures
        r@ == clipped(text@, room as int),
{
    let chars: Vec<char> = chars_of(text);
    let mut out: String = String::new();
    let mut left: usize = room;
    let mut i: usize = 0;
    assert(text@.skip(0) =~= text@);
    while i < chars.len()
        invariant
            i <= chars@.len(),
            chars@ == text@,
            out@ == text@.take(i as int),
            fitting(text@, room as int) == i + fitting(text@.skip(i as int), left as int),
        decreases chars@.len() - i,
    {
        let ghost rest = text@.skip(i as int);
        assert(rest[0] == text@[i as int]);
        assert(rest.drop_first() =~= text@.skip(i + 1));
        let size: usize = char_width(chars[i]);
        if size > left {
            return out;
        }
        out.push(chars[i]);
        assert(out@ =~= text@.take(i + 1));
        left = left - size;
        i += 1;
    }
    out
}

/// A line of output, cut to a bounded size.
pub fn emit(level: &str, message: &str, important: bool) -> (r: Line)
    ensures
        r@ == line_of(level@, message@, important),
{
    let head = concat(level, " ");
    let text = clip(concat(head.as_str(), message).as_str(), MAX_LINE);
    Line { text, important }
}

pub fn info(message: &str) -> (r: Line)
    ensures
        r@ == line_of("INFO"@, message@, true),
{
    emit("INFO", message, true)
}

pub fn error(message: &str) -> (r: Line)
    ensures
        r@ == line_of("ERROR"@, message@, true),
{
    emit("ERROR", message, true)
}

/// Warnings since a point in time: how many went out, how many were held back.
#[derive(Debug, Clone, Copy, PartialEq, Eq, Structural)]
pub struct WarningWindow {
    pub started_at: u64,
    pub emitted: u32,
    pub suppressed: u64,
}

impl WarningWindow {
    pub open spec fn opened(now: u64) -> WarningWindow {
        WarningWindow { started_at: now, emitted: 0, suppressed: 0 }
    }
}

/// What a warning leads to.
pub struct Admission {
    pub window: WarningWindow,
    /// Whether the warning goes out.
    pub emitted: bool,
    /// How many were held back in the window that has just ended.
    pub suppressed: u64,
}

/// Counts a warning; a window that has lasted its time is replaced.
pub open spec fn admission(state: Option<WarningWindow>, now: u64) -> Admission {
    let held = match state {
        Some(window) => window,
        None => WarningWindow::opened(now),
    };
    let over = now - held.started_at >= INTERVAL;
    let window = if over {
        WarningWindow::opened(now)
    } else {
        held
    };
    let suppressed = if over {
        held.suppressed
    } else {
        0
    };
    if window.emitted < BURST {
        Admission {
            window: WarningWindow { emitted: (window.emitted + 1) as u32, ..window },
            emitted: true,
            suppressed,
        }
    } else {
        Admission {
            window: WarningWindow {
                suppressed: if window.suppressed < u64::MAX {
                    (window.suppressed + 1) as u64
                } else {
                    u64::MAX
                },
                ..window
            },
            emitted: false,
            suppressed,
        }
    }
}

/// The lines that a warning leads to: first a note on those held back.
pub open spec fn warning_lines(state: Option<WarningWindow>, now: u64, message: Seq<char>) -> Seq<
    LineView,
> {
    let admitted = admission(state, now);
    let note = if admitted.suppressed > 0 {
        seq![
            line_of(
                "WARN"@,
                "suppressed "@ + text::decimal(admitted.suppressed as nat)
                    + " repeated diagnostics"@,
                false,
            ),
        ]
    } else {
        Seq::empty()
    };
    if admitted.emitted {
        note.push(line_of("WARN"@, message, false))
    } else {
        note
    }
}

/// At most twenty routine warnings per five seconds.
pub fn warn(state: &mut Option<WarningWindow>, now: u64, message: &str) -> (r: Vec<Line>)
    ensures
        *final(state) == Some(admission(*old(state), now).window),
        r@.map_values(|line: Line| line@) == warning_lines(*old(state), now, message@),
{
    let held = match *state {
        Some(window) => window,
        None => WarningWindow { started_at: now, emitted: 0, suppressed: 0 },
    };
    let over = now >= held.started_at && now - held.started_at >= INTERVAL;
    let mut window = if over {
        WarningWindow { started_at: now, emitted: 0, suppressed: 0 }
    } else {
        held
    };
    let suppressed: u64 = if over {
        held.suppressed
    } else {
        0
    };
    let emitted = window.emitted < BURST;
    if emitted {
        window.emitted = window.emitted + 1;
    } else {
        window.suppressed = window.suppressed.saturating_add(1);
    }
    *state = Some(window);
    let mut lines: Vec<Line> = Vec::new();
    if suppressed > 0 {
        let head = concat("suppressed ", decimal_text(suppressed).as_str());
        lines.push(emit("WARN", concat(head.as_str(), " repeated diagnostics").as_str(), false));
    }
    if emitted {
        lines.push(emit("WARN", message, false));
    }
    assert(lines@.map_values(|line: Line| line@) =~= warning_lines(*old(state), now, message@));
    lines
}

/// A window lets a burst of warnings out and no more: within it the count of
/// those that went out grows by one with each, up to twenty, and each further
/// one is counted as held back until the window has lasted five seconds.
pub proof fn window_lets_out_a_burst(window: WarningWindow, now: u64)
    requires
        now - window.started_at < INTERVAL,
        window.emitted <= BURST,
    ensures
        ({
            let admitted = admission(Some(window), now);
            &&& admitted.window.started_at == window.started_at
            &&& admitted.window.emitted == window.emitted + (if admitted.emitted {
                1int
            } else {
                0int
            })
            &&& admitted.window.emitted <= BURST
            &&& admitted.emitted == (window.emitted < BURST)
            &&& !admitted.emitted && window.suppressed < u64::MAX ==> admitted.window.suppressed
                == window.suppressed + 1
        }),
{
}

/// The state in front of a warning, after the ones before it in a run.
pub open spec fn state_before(state: Option<WarningWindow>, times: Seq<u64>, i: int) -> Option<
    WarningWindow,
>
    decreases i,
{
    if i <= 0 {
        state
    } else {
        Some(admission(state_before(state, times, i - 1), times[i - 1]).window)
    }
}

/// The lines of a warning that opens a window, after `held_back` others did not go
/// out in the window before.
pub open spec fn opening_lines(held_back: int, message: Seq<char>) -> Seq<LineView> {
    if held_back > 0 {
        seq![
            line_of(
                "WARN"@,
                "suppressed "@ + text::decimal(held_back as nat) + " repeated diagnostics"@,
                false,
            ),
            line_of("WARN"@, message, false),
        ]
    } else {
        seq![line_of("WARN"@, message, false)]
    }
}

/// Whether a warning opens a new window.
pub open spec fn opens(state: Option<WarningWindow>, now: u64) -> bool {
    state matches Some(window) ==> now - window.started_at >= INTERVAL
}

proof fn window_counts_a_run(state: Option<WarningWindow>, times: Seq<u64>, i: int)
    requires
        1 <= i <= times.len() <= u64::MAX,
        opens(state, times[0]),
        forall|k: int| 0 <= k < times.len() ==> (#[trigger] times[k]) - times[0] < INTERVAL,
    ensures
        state_before(state, times, i) == Some(
            (WarningWindow {
                started_at: times[0],
                emitted: (if i < BURST {
                    i
                } else {
                    BURST as int
                }) as u32,
                suppressed: (if i < BURST {
                    0
                } else {
                    i - BURST
                }) as u64,
            }),
        ),
    decreases i,
{
    if i > 1 {
        window_counts_a_run(state, times, i - 1);
        assert(times[i - 1] - times[0] < INTERVAL);
    } else {
        assert(state_before(state, times, 0) == state);
    }
}

/// Of a run of warnings in one window, the first twenty go out and the others are
/// held back. The first warning of the next window is preceded by a note of how
/// many were held back, if any were, and opens a window of its own; so does the
/// first of the run, with a note on the window before it.
pub proof fn window_lets_out_a_run(
    state: Option<WarningWindow>,
    times: Seq<u64>,
    messages: Seq<Seq<char>>,
    next: u64,
    message: Seq<char>,
)
    requires
        1 <= times.len() <= u64::MAX,
        messages.len() == times.len(),
        state matches Some(window) ==> times[0] - window.started_at >= 5_000_000_000,
        forall|k: int| 0 <= k < times.len() ==> (#[trigger] times[k]) - times[0] < 5_000_000_000,
        next - times[0] >= 5_000_000_000,
    ensures
        warning_lines(state, times[0], messages[0]) == opening_lines(
            match state {
                Some(before) => before.suppressed as int,
                None => 0,
            },
            messages[0],
        ),
        forall|i: int|
            1 <= i < times.len() ==> warning_lines(
                state_before(state, times, i),
                times[i],
                #[trigger] messages[i],
            ) == (if i < 20 {
                seq![line_of("WARN"@, messages[i], false)]
            } else {
                Seq::empty()
            }),
        ({
            let n = times.len() as int;
            let full = state_before(state, times, n);
            &&& admission(full, next).window == (WarningWindow {
                emitted: 1,
                ..WarningWindow::opened(next)
            })
            &&& warning_lines(full, next, message) == opening_lines(n - 20, message)
        }),
{
    assert forall|i: int| 1 <= i < times.len() implies warning_lines(
        state_before(state, times, i),
        times[i],
        #[trigger] messages[i],
    ) == (if i < 20 {
        seq![line_of("WARN"@, messages[i], false)]
    } else {
        Seq::empty()
    }) by {
        window_counts_a_run(state, times, i);
        assert(times[i] - times[0] < 5_000_000_000);
    }
    window_counts_a_run(state, times, times.len() as int);
}

/// A line is its level, a space and its message, whole where that takes no more than 2048
/// octets, and otherwise cut to fit them.
pub proof fn lines_are_cut_to_fit(level: Seq<char>, message: Seq<char>, important: bool)
    ensures
        ({
            let whole = level + " "@ + message;
            let line = line_of(level, message, important);
            &&& line.important == important
            &&& vstd::utf8::encode_utf8(line.text).len() <= 2048
            &&& line.text == whole.take(line.text.len() as int)
            &&& vstd::utf8::encode_utf8(whole).len() <= 2048 ==> line.text == whole
            &&& line.text.len() < whole.len() ==> vstd::utf8::encode_utf8(
                whole.take(line.text.len() as int + 1),
            ).len() > 2048
        }),
{
    let whole = level + " "@ + message;
    clipped_text_fits(whole, 2048);
    if vstd::utf8::encode_utf8(whole).len() <= 2048 {
        fitting_text_is_whole(whole, 2048);
    }
}

} // verus!
