//! Projecting arrival predictions onto the current wall clock and laying
//! the results out into two fixed-width display lines.
//!
//! The clock line carries the projected arrival times; the countdown line
//! carries the remaining time until each of them, right-justified into a
//! five-column cell. Entries are appended, two spacer columns apart, until
//! the clock line grows past its body budget; both lines are then
//! right-justified to the display width, and the first column of the
//! countdown line doubles as a heartbeat that blinks on alternate renders.

use vstd::prelude::*;
use crate::model::{Instant, TimedArrival};
use crate::clock::clock_digits;
use crate::clock::MAX_CLOCK_EPOCH;

verus! {

/// Milliseconds between renders: the display refreshes at its own, much
/// faster cadence than the poller and recomputes every countdown from the
/// current wall clock.
pub const RENDER_INTERVAL_MS: u64 = 1000;

/// Width of one display line.
pub const DISPLAY_WIDTH: usize = 20;

/// The clock line stops taking entries once it has grown past this width.
pub const BODY_BUDGET: usize = 15;

/// Width a countdown entry is right-justified to.
pub const CELL_WIDTH: usize = 5;

/// ASCII bytes used on the display.
pub const SPACE: u8 = 32;

pub const PLUS: u8 = 43;

pub const DOT: u8 = 46;

pub const DIGIT_ZERO: u8 = 48;

pub const LOWER_M: u8 = 109;

pub const LOWER_N: u8 = 110;

pub const LOWER_O: u8 = 111;

pub const LOWER_S: u8 = 115;

pub const LOWER_W: u8 = 119;

pub const QUESTION: u8 = 63;

/// `n` space bytes (none for a negative `n`).
pub open spec fn spaces(n: int) -> Seq<u8> {
    Seq::new(if n < 0 { 0 } else { n as nat }, |i: int| SPACE)
}

/// `s` right-justified to width `w`: padded with spaces on the left, and
/// left as it stands once it is at least `w` wide.
pub open spec fn pad_left(s: Seq<u8>, w: int) -> Seq<u8> {
    if s.len() >= w {
        s
    } else {
        spaces(w - s.len()) + s
    }
}

/// The decimal digits of `n`, most significant first.
pub open spec fn dec_digits(n: nat) -> Seq<u8>
    decreases n,
{
    if n < 10 {
        seq![(DIGIT_ZERO + n) as u8]
    } else {
        dec_digits(n / 10).push((DIGIT_ZERO + n % 10) as u8)
    }
}

/// The countdown text for `rem` seconds of remaining time: an anomaly
/// marker once the projected instant has passed, whole seconds under one
/// minute, and whole minutes (floor) from the minute up.
pub open spec fn remaining_text(rem: int) -> Seq<u8> {
    if rem < 0 {
        seq![LOWER_N, LOWER_O, LOWER_W, QUESTION]
    } else if rem < 60 {
        seq![PLUS] + dec_digits(rem as nat) + seq![LOWER_S]
    } else {
        seq![PLUS] + dec_digits((rem / 60) as nat) + seq![LOWER_M]
    }
}

/// The shape of one clock entry: five bytes, two digits, a colon, two
/// digits. Which digits stand there is the local time zone's business.
pub open spec fn clock_shaped(s: Seq<u8>) -> bool {
    s.len() == 5 && s[2] == 58 && (forall|i: int|
        0 <= i < 5 && i != 2 ==> 48 <= #[trigger] s[i] <= 57)
}

/// The instant an arrival is projected to occur: its fetch instant plus
/// the seconds-to-arrival measured then.
pub open spec fn projected_seconds(t: TimedArrival) -> int {
    t.read_time.epoch_seconds + t.arrival.eta_seconds
}

/// Seconds left until the projected instant, seen from `now`.
pub open spec fn remaining_seconds(t: TimedArrival, now: Instant) -> int {
    projected_seconds(t) - now.epoch_seconds
}

/// Append the bytes of `src` to `dst`.
fn push_all(dst: &mut Vec<u8>, src: &Vec<u8>)
    ensures
        final(dst)@ == old(dst)@ + src@,
{
    let mut k: usize = 0;
    while k < src.len()
        invariant
            k <= src@.len(),
            dst@ == old(dst)@ + src@.take(k as int),
        decreases src@.len() - k,
    {
        dst.push(src[k]);
        assert(old(dst)@ + src@.take(k + 1 as int) =~= (old(dst)@ + src@.take(k as int)).push(
            src@[k as int],
        ));
        k = k + 1;
    }
    assert(old(dst)@ + src@.take(src@.len() as int) =~= old(dst)@ + src@);
}

/// Append `n` spaces to `v`.
fn push_spaces(v: &mut Vec<u8>, n: usize)
    ensures
        final(v)@ == old(v)@ + spaces(n as int),
{
    let mut k: usize = 0;
    while k < n
        invariant
            k <= n,
            v@ == old(v)@ + spaces(k as int),
        decreases n - k,
    {
        v.push(SPACE);
        assert(old(v)@ + spaces(k + 1 as int) =~= (old(v)@ + spaces(k as int)).push(SPACE));
        k = k + 1;
    }
}

/// `v` right-justified to `width` columns.
pub fn right_justify(v: &Vec<u8>, width: usize) -> (r: Vec<u8>)
    ensures
        r@ == pad_left(v@, width as int),
{
    let mut r: Vec<u8> = Vec::new();
    if v.len() < width {
        push_spaces(&mut r, width - v.len());
    }
    push_all(&mut r, v);
    assert(r@ =~= pad_left(v@, width as int));
    r
}

/// The decimal rendering of `n`, most significant digit first.
pub fn decimal_u64(n: u64) -> (r: Vec<u8>)
    ensures
        r@ == dec_digits(n as nat),
    decreases n,
{
    if n < 10 {
        let mut r: Vec<u8> = Vec::new();
        r.push(DIGIT_ZERO + n as u8);
        assert(r@ =~= dec_digits(n as nat));
        r
    } else {
        let mut r = decimal_u64(n / 10);
        r.push(DIGIT_ZERO + (n % 10) as u8);
        r
    }
}

/// The countdown text for `rem` seconds of remaining time.
pub fn format_remaining(rem: i64) -> (r: Vec<u8>)
    ensures
        r@ == remaining_text(rem as int),
{
    let mut r: Vec<u8> = Vec::new();
    if rem < 0 {
        r.push(LOWER_N);
        r.push(LOWER_O);
        r.push(LOWER_W);
        r.push(QUESTION);
        assert(r@ =~= remaining_text(rem as int));
    } else if rem < 60 {
        r.push(PLUS);
        let d = decimal_u64(rem as u64);
        push_all(&mut r, &d);
        r.push(LOWER_S);
        assert(r@ =~= remaining_text(rem as int));
    } else {
        r.push(PLUS);
        let d = decimal_u64((rem as u64) / 60);
        push_all(&mut r, &d);
        r.push(LOWER_M);
        assert(r@ =~= remaining_text(rem as int));
    }
    r
}

/// One rendered snapshot entry: the projected clock time and the
/// countdown text, both as display bytes.
pub struct Cell {
    pub clock: Vec<u8>,
    pub rem: Vec<u8>,
}

/// The byte sequences of a row of cells.
pub open spec fn cell_views(cs: Seq<Cell>) -> Seq<(Seq<u8>, Seq<u8>)> {
    Seq::new(cs.len(), |i: int| (cs[i].clock@, cs[i].rem@))
}

/// The two columns between consecutive entries.
pub open spec fn spacer() -> Seq<u8> {
    seq![SPACE, SPACE]
}

/// One entry appended to the growing clock and countdown lines: a spacer
/// ahead of it on each line that already has content, the clock text as it
/// stands, the countdown text right-justified into its cell.
pub open spec fn layout_step(s: Seq<u8>, q: Seq<u8>, c: (Seq<u8>, Seq<u8>)) -> (Seq<u8>, Seq<u8>) {
    (
        (if s.len() > 0 {
            s + spacer()
        } else {
            s
        }) + c.0,
        (if q.len() > 0 {
            q + spacer()
        } else {
            q
        }) + pad_left(c.1, CELL_WIDTH as int),
    )
}

/// The line bodies after appending entries from `cells[i]` on to lines
/// that already hold `s` and `q`, stopping once the clock line has grown
/// past the body budget.
pub open spec fn layout_run(cells: Seq<(Seq<u8>, Seq<u8>)>, i: int, s: Seq<u8>, q: Seq<u8>) -> (
    Seq<u8>,
    Seq<u8>,
)
    decreases cells.len() - i,
{
    if i < 0 || i >= cells.len() || s.len() > BODY_BUDGET {
        (s, q)
    } else {
        let next = layout_step(s, q, cells[i]);
        layout_run(cells, i + 1, next.0, next.1)
    }
}

/// The heartbeat: a period in the first column on alternate renders, the
/// line's own first column otherwise.
pub open spec fn heartbeat_mark(line: Seq<u8>, on: bool) -> Seq<u8> {
    if on && line.len() > 0 {
        line.update(0, DOT)
    } else {
        line
    }
}

/// The finished display lines for a row of cells: both bodies
/// right-justified to the display width, the heartbeat over the first
/// column of the countdown line.
pub open spec fn layout_lines_spec(cells: Seq<(Seq<u8>, Seq<u8>)>, heartbeat: bool) -> (
    Seq<u8>,
    Seq<u8>,
) {
    let body = layout_run(cells, 0, Seq::empty(), Seq::empty());
    (
        pad_left(body.0, DISPLAY_WIDTH as int),
        heartbeat_mark(pad_left(body.1, DISPLAY_WIDTH as int), heartbeat),
    )
}

/// Lay a row of cells out into the two display lines.
pub fn layout_lines(cells: &Vec<Cell>, heartbeat: bool) -> (r: (Vec<u8>, Vec<u8>))
    ensures
        r.0@ == layout_lines_spec(cell_views(cells@), heartbeat).0,
        r.1@ == layout_lines_spec(cell_views(cells@), heartbeat).1,
{
    let ghost views = cell_views(cells@);
    let mut s: Vec<u8> = Vec::new();
    let mut q: Vec<u8> = Vec::new();
    let mut i: usize = 0;
    loop
        invariant_except_break
            s@.len() <= BODY_BUDGET,
        invariant
            views == cell_views(cells@),
            i <= cells@.len(),
            layout_run(views, i as int, s@, q@) == layout_run(
                views,
                0,
                Seq::<u8>::empty(),
                Seq::<u8>::empty(),
            ),
        ensures
            (s@, q@) == layout_run(views, 0, Seq::<u8>::empty(), Seq::<u8>::empty()),
        decreases cells@.len() - i,
    {
        if i >= cells.len() {
            break ;
        }
        assert(views[i as int] == (cells@[i as int].clock@, cells@[i as int].rem@));
        let ghost s0 = s@;
        let ghost q0 = q@;
        if s.len() > 0 {
            s.push(SPACE);
            s.push(SPACE);
        }
        if q.len() > 0 {
            q.push(SPACE);
            q.push(SPACE);
        }
        push_all(&mut s, &cells[i].clock);
        let padded = right_justify(&cells[i].rem, CELL_WIDTH);
        push_all(&mut q, &padded);
        proof {
            let stepped = layout_step(s0, q0, views[i as int]);
            assert(s@ =~= stepped.0);
            assert(q@ =~= stepped.1);
            assert(layout_run(views, i as int, s0, q0) == layout_run(
                views,
                i + 1 as int,
                s@,
                q@,
            ));
        }
        i = i + 1;
        if s.len() > BODY_BUDGET {
            break ;
        }
    }
    let line0 = right_justify(&s, DISPLAY_WIDTH);
    let mut line1 = right_justify(&q, DISPLAY_WIDTH);
    if heartbeat {
        assert(line1@.len() >= DISPLAY_WIDTH);
        line1[0] = DOT;
    }
    (line0, line1)
}

/// The countdown-line body for a snapshot, built alongside a clock line
/// whose entries are five columns wide: `slen` tracks the clock line's
/// length, and appending stops once it has grown past the body budget.
pub open spec fn countdown_run(
    snap: Seq<TimedArrival>,
    now: Instant,
    i: int,
    slen: int,
    q: Seq<u8>,
) -> Seq<u8>
    decreases snap.len() - i,
{
    if i < 0 || i >= snap.len() || slen > BODY_BUDGET {
        q
    } else {
        let slen2 = (if slen > 0 {
            slen + 2
        } else {
            slen
        }) + 5;
        let q2 = (if q.len() > 0 {
            q + spacer()
        } else {
            q
        }) + pad_left(remaining_text(remaining_seconds(snap[i], now)), CELL_WIDTH as int);
        countdown_run(snap, now, i + 1, slen2, q2)
    }
}

/// The finished countdown line for a snapshot rendered at `now`.
pub open spec fn countdown_line(snap: Seq<TimedArrival>, now: Instant, heartbeat: bool) -> Seq<
    u8,
> {
    heartbeat_mark(
        pad_left(countdown_run(snap, now, 0, 0, Seq::empty()), DISPLAY_WIDTH as int),
        heartbeat,
    )
}

/// The cells a snapshot renders to, given the clock strings that came back
/// for its entries.
pub open spec fn render_cells(clocks: Seq<Seq<u8>>, snap: Seq<TimedArrival>, now: Instant) -> Seq<
    (Seq<u8>, Seq<u8>),
> {
    Seq::new(snap.len(), |i: int| (clocks[i], remaining_text(remaining_seconds(snap[i], now))))
}

/// On cells whose clock entries are five columns wide and whose countdown
/// entries are the snapshot's countdown texts, the layout's countdown line
/// is the snapshot's countdown body.
proof fn lemma_layout_run_countdown(
    cells: Seq<(Seq<u8>, Seq<u8>)>,
    snap: Seq<TimedArrival>,
    now: Instant,
    i: int,
    s: Seq<u8>,
    q: Seq<u8>,
)
    requires
        cells.len() == snap.len(),
        forall|j: int| 0 <= j < cells.len() ==> (#[trigger] cells[j]).0.len() == 5,
        forall|j: int|
            0 <= j < cells.len() ==> (#[trigger] cells[j]).1 == remaining_text(
                remaining_seconds(snap[j], now),
            ),
    ensures
        layout_run(cells, i, s, q).1 == countdown_run(snap, now, i, s.len() as int, q),
    decreases cells.len() - i,
{
    if i < 0 || i >= cells.len() || s.len() > BODY_BUDGET {
    } else {
        let next = layout_step(s, q, cells[i]);
        lemma_layout_run_countdown(cells, snap, now, i + 1, next.0, next.1);
    }
}

/// The clock-line body never grows past 19 columns when every clock entry
/// is five columns wide: each entry adds five columns and, after the
/// first, two spacer columns, and appending stops past the budget.
proof fn lemma_layout_run_width(cells: Seq<(Seq<u8>, Seq<u8>)>, i: int, s: Seq<u8>, q: Seq<u8>)
    requires
        forall|j: int| 0 <= j < cells.len() ==> (#[trigger] cells[j]).0.len() == 5,
        s.len() <= BODY_BUDGET,
        s.len() == 0 || s.len() % 7 == 5,
    ensures
        layout_run(cells, i, s, q).0.len() <= 19,
        layout_run(cells, i, s, q).0.len() == 0 || layout_run(cells, i, s, q).0.len() % 7 == 5,
    decreases cells.len() - i,
{
    if i < 0 || i >= cells.len() {
    } else {
        let next = layout_step(s, q, cells[i]);
        assert(next.0.len() == if s.len() > 0 {
            s.len() + 7
        } else {
            5nat
        });
        if next.0.len() > BODY_BUDGET {
            assert(layout_run(cells, i + 1, next.0, next.1) == (next.0, next.1));
        } else {
            lemma_layout_run_width(cells, i + 1, next.0, next.1);
        }
    }
}

/// When the two line bodies are equally long and every countdown text
/// fits its cell, they stay equally long: each entry adds five columns to
/// both, and spacers come in pairs.
proof fn lemma_layout_run_even(cells: Seq<(Seq<u8>, Seq<u8>)>, i: int, s: Seq<u8>, q: Seq<u8>)
    requires
        forall|j: int| 0 <= j < cells.len() ==> (#[trigger] cells[j]).0.len() == 5,
        forall|j: int| 0 <= j < cells.len() ==> (#[trigger] cells[j]).1.len() <= 5,
        s.len() == q.len(),
    ensures
        layout_run(cells, i, s, q).1.len() == layout_run(cells, i, s, q).0.len(),
    decreases cells.len() - i,
{
    if i < 0 || i >= cells.len() || s.len() > BODY_BUDGET {
    } else {
        let next = layout_step(s, q, cells[i]);
        assert(pad_left(cells[i].1, CELL_WIDTH as int).len() == 5);
        lemma_layout_run_even(cells, i + 1, next.0, next.1);
    }
}

/// With five-column clock entries and countdown texts that fit their
/// cell, both finished lines are exactly the display width: appending
/// stops before either body can outgrow it, and right-justification then
/// fills both out to it.
pub proof fn lemma_lines_full_width(cells: Seq<(Seq<u8>, Seq<u8>)>, heartbeat: bool)
    requires
        forall|j: int| 0 <= j < cells.len() ==> (#[trigger] cells[j]).0.len() == 5,
        forall|j: int| 0 <= j < cells.len() ==> (#[trigger] cells[j]).1.len() <= 5,
    ensures
        layout_lines_spec(cells, heartbeat).0.len() == DISPLAY_WIDTH,
        layout_lines_spec(cells, heartbeat).1.len() == DISPLAY_WIDTH,
{
    lemma_layout_run_width(cells, 0, Seq::<u8>::empty(), Seq::<u8>::empty());
    lemma_layout_run_even(cells, 0, Seq::<u8>::empty(), Seq::<u8>::empty());
}

/// Re-rendering one unchanged row flips only the heartbeat column: the
/// clock line is identical across the two renders, and the countdown line
/// with the heartbeat on is the one with it off with a period over its
/// first column.
pub proof fn lemma_heartbeat_only_difference(cells: Seq<(Seq<u8>, Seq<u8>)>)
    ensures
        layout_lines_spec(cells, true).0 == layout_lines_spec(cells, false).0,
        layout_lines_spec(cells, true).1 == layout_lines_spec(cells, false).1.update(0, DOT),
        layout_lines_spec(cells, true).1.len() == layout_lines_spec(cells, false).1.len(),
{
    let body = layout_run(cells, 0, Seq::<u8>::empty(), Seq::<u8>::empty());
    assert(pad_left(body.1, DISPLAY_WIDTH as int).len() >= DISPLAY_WIDTH);
}

/// Along the countdown body, the first column is always a space, a plus
/// or the anomaly marker's first letter — never the heartbeat's period.
proof fn lemma_countdown_run_first(
    snap: Seq<TimedArrival>,
    now: Instant,
    i: int,
    slen: int,
    q: Seq<u8>,
)
    requires
        q.len() > 0 ==> q[0] == SPACE || q[0] == PLUS || q[0] == LOWER_N,
    ensures
        countdown_run(snap, now, i, slen, q).len() > 0 ==> (countdown_run(snap, now, i, slen, q)[0]
            == SPACE || countdown_run(snap, now, i, slen, q)[0] == PLUS || countdown_run(
            snap,
            now,
            i,
            slen,
            q,
        )[0] == LOWER_N),
    decreases snap.len() - i,
{
    if i < 0 || i >= snap.len() || slen > BODY_BUDGET {
    } else {
        let rt = remaining_text(remaining_seconds(snap[i], now));
        let cell = pad_left(rt, CELL_WIDTH as int);
        assert(rt.len() > 0 && (rt[0] == PLUS || rt[0] == LOWER_N));
        assert(cell.len() > 0 && (cell[0] == SPACE || cell[0] == PLUS || cell[0] == LOWER_N));
        let slen2 = (if slen > 0 {
            slen + 2
        } else {
            slen
        }) + 5;
        let q2 = (if q.len() > 0 {
            q + spacer()
        } else {
            q
        }) + cell;
        lemma_countdown_run_first(snap, now, i + 1, slen2, q2);
    }
}

/// The heartbeat column differs between the two renders of one snapshot
/// at one instant: with the heartbeat on it shows the period, with it off
/// a character that is never the period.
pub proof fn lemma_heartbeat_distinct(snap: Seq<TimedArrival>, now: Instant)
    ensures
        countdown_line(snap, now, true) == countdown_line(snap, now, false).update(0, DOT),
        countdown_line(snap, now, true)[0] == DOT,
        countdown_line(snap, now, false)[0] != DOT,
{
    lemma_countdown_run_first(snap, now, 0, 0, Seq::<u8>::empty());
    let q = countdown_run(snap, now, 0, 0, Seq::<u8>::empty());
    let padded = pad_left(q, DISPLAY_WIDTH as int);
    assert(padded.len() >= DISPLAY_WIDTH);
    if q.len() < DISPLAY_WIDTH {
        assert(padded[0] == SPACE);
    }
}

/// Render a snapshot at the instant `now`: project each arrival, format
/// its clock time and countdown text, and lay the row out into the two
/// display lines. The clock line's contents depend on the machine's local
/// time zone; its shape and the whole countdown line do not.
pub fn render_cycle(snapshot: &Vec<TimedArrival>, now: Instant, heartbeat: bool) -> (r: (
    Vec<u8>,
    Vec<u8>,
))
    requires
        forall|i: int|
            0 <= i < snapshot@.len() ==> 0 <= #[trigger] projected_seconds(snapshot@[i])
                <= MAX_CLOCK_EPOCH,
        0 <= now.epoch_seconds <= MAX_CLOCK_EPOCH,
    ensures
        r.1@ == countdown_line(snapshot@, now, heartbeat),
        r.0@.len() == DISPLAY_WIDTH,
        exists|clocks: Seq<Seq<u8>>|
            clocks.len() == snapshot@.len() && (forall|j: int|
                0 <= j < clocks.len() ==> clock_shaped(#[trigger] clocks[j])) && r.0@
                == layout_lines_spec(render_cells(clocks, snapshot@, now), heartbeat).0,
{
    let mut cells: Vec<Cell> = Vec::new();
    let mut i: usize = 0;
    while i < snapshot.len()
        invariant
            forall|k: int|
                0 <= k < snapshot@.len() ==> 0 <= #[trigger] projected_seconds(snapshot@[k])
                    <= MAX_CLOCK_EPOCH,
            0 <= now.epoch_seconds <= MAX_CLOCK_EPOCH,
            i <= snapshot@.len(),
            cells@.len() == i,
            forall|k: int| 0 <= k < i as int ==> clock_shaped((#[trigger] cells@[k]).clock@),
            forall|k: int|
                0 <= k < i as int ==> (#[trigger] cells@[k]).rem@ == remaining_text(
                    remaining_seconds(snapshot@[k], now),
                ),
        decreases snapshot@.len() - i,
    {
        let entry = &snapshot[i];
        assert(projected_seconds(snapshot@[i as int]) == entry.read_time.epoch_seconds
            + entry.arrival.eta_seconds);
        let when: i64 = entry.read_time.epoch_seconds + entry.arrival.eta_seconds;
        let rem: i64 = when - now.epoch_seconds;
        let clock = clock_digits(Instant { epoch_seconds: when });
        let rem_bytes = format_remaining(rem);
        cells.push(Cell { clock, rem: rem_bytes });
        i = i + 1;
    }
    let ghost views = cell_views(cells@);
    let ghost clocks = Seq::new(cells@.len(), |k: int| cells@[k].clock@);
    proof {
        assert(views =~~= render_cells(clocks, snapshot@, now));
        assert forall|j: int| 0 <= j < views.len() implies (#[trigger] views[j]).0.len() == 5 by {
            assert(clock_shaped(cells@[j].clock@));
        }
        lemma_layout_run_countdown(
            views,
            snapshot@,
            now,
            0,
            Seq::<u8>::empty(),
            Seq::<u8>::empty(),
        );
        lemma_layout_run_width(views, 0, Seq::<u8>::empty(), Seq::<u8>::empty());
    }
    let r = layout_lines(&cells, heartbeat);
    assert(r.0@.len() == DISPLAY_WIDTH);
    r
}

} // verus!
