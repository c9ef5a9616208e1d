//! What the terminal display shows: the state behind it, and the texts that
//! need no floating point.

use crate::pipeline::{add64, count_up, next_count, sum64, FileRecord, ProgressEvent};
use crate::text::{chars_of, decimal, format_number, law_digits_are_the_number, string_of};
use std::collections::VecDeque;
use vstd::prelude::*;
use vstd::utf8::{decode_utf8, encode_utf8, encode_utf8_decode_utf8, is_char_boundary};

verus! {

/// How many files the display remembers.
pub const MAX_RECENT: usize = 200;

/// How far back the current speed is measured, in nanoseconds.
pub const SPEED_SPAN: u64 = 4_000_000_000;

/// The shortest time over which a speed is measured, in nanoseconds.
pub const SPEED_LEAST: u64 = 10_000_000;

// ---------------------------------------------------------------------------
// State
// ---------------------------------------------------------------------------

/// What the display shows of a run. Times are in nanoseconds since its start.
#[derive(Debug, Clone)]
pub struct TuiState {
    pub src: String,
    pub dst: String,
    pub total_files: usize,
    pub total_bytes: u64,
    pub done_files: usize,
    pub done_bytes: u64,
    pub skipped: usize,
    pub literal: u64,
    pub matched: u64,
    pub recent: VecDeque<FileRecord>,
    pub speed_window: VecDeque<(u64, u64)>,
    pub finished: bool,
    pub error: Option<String>,
}

/// The entries of the window that are not too old at the time `now`; the newest
/// in any case.
pub open spec fn recent_part(window: Seq<(u64, u64)>, now: int) -> Seq<(u64, u64)>
    decreases window.len(),
{
    if window.len() > 1 && now - window[0].0 > SPEED_SPAN {
        recent_part(window.skip(1), now)
    } else {
        window
    }
}

/// The files that are remembered when one more is done.
pub open spec fn remembered(recent: Seq<FileRecord>, r: FileRecord) -> Seq<FileRecord> {
    if recent.len() >= MAX_RECENT {
        recent.skip(1).push(r)
    } else {
        recent.push(r)
    }
}

/// The state after a file is done at the time `now`.
pub open spec fn after_file(old_state: TuiState, state: TuiState, r: FileRecord, now: u64) -> bool {
    &&& state.done_bytes == sum64(old_state.done_bytes as int, r.size as int)
    &&& state.skipped == if r.skipped {
        next_count(old_state.skipped)
    } else {
        old_state.skipped
    }
    &&& state.done_files == if r.skipped {
        old_state.done_files
    } else {
        next_count(old_state.done_files)
    }
    &&& state.literal == if r.skipped {
        old_state.literal as int
    } else {
        sum64(old_state.literal as int, r.literal as int)
    }
    &&& state.matched == if r.skipped {
        old_state.matched as int
    } else {
        sum64(old_state.matched as int, r.matched as int)
    }
    &&& state.speed_window@ == recent_part(
        old_state.speed_window@.push((now, state.done_bytes)),
        now as int,
    )
    &&& state.recent@ == remembered(old_state.recent@, r)
    &&& state.total_files == old_state.total_files
    &&& state.total_bytes == old_state.total_bytes
    &&& state.finished == old_state.finished
    &&& state.error == old_state.error
}

/// The state after an event that came at the time `now`.
pub open spec fn after_event(
    old_state: TuiState,
    state: TuiState,
    ev: ProgressEvent,
    now: u64,
) -> bool {
    &&& state.src == old_state.src
    &&& state.dst == old_state.dst
    &&& match ev {
        ProgressEvent::Start { total_files, total_bytes } => state == (TuiState {
            total_files,
            total_bytes,
            ..old_state
        }),
        ProgressEvent::File(r) => after_file(old_state, state, r, now),
        ProgressEvent::Done(s) => state == (TuiState {
            done_files: s.files_xferred,
            skipped: s.files_skipped,
            literal: s.literal_bytes,
            matched: s.matched_bytes,
            done_bytes: s.total_size,
            finished: true,
            ..old_state
        }),
        ProgressEvent::Error(msg) => state == (TuiState {
            error: Some(msg),
            finished: true,
            ..old_state
        }),
    }
}

/// The bytes done over the window and the nanoseconds they took, where that is
/// long enough to tell a speed.
pub open spec fn sample_of(w: Seq<(u64, u64)>) -> Option<(u64, u64)> {
    let n = w.len() as int;
    if n < 2 || w[n - 1].0 - w[0].0 < SPEED_LEAST {
        None
    } else {
        Some(
            (
                (if w[n - 1].1 >= w[0].1 {
                    w[n - 1].1 - w[0].1
                } else {
                    0
                }) as u64,
                (w[n - 1].0 - w[0].0) as u64,
            ),
        )
    }
}

/// The bytes that are left to do.
pub open spec fn left_to_do(total: u64, done: u64) -> int {
    if total >= done {
        total - done
    } else {
        0
    }
}

impl TuiState {
    /// The state of a run that has not begun.
    pub fn new(src: String, dst: String) -> (state: TuiState)
        ensures
            state.src == src,
            state.dst == dst,
            state.total_files == 0 && state.total_bytes == 0,
            state.done_files == 0 && state.done_bytes == 0 && state.skipped == 0,
            state.literal == 0 && state.matched == 0,
            state.recent@.len() == 0,
            state.speed_window@.len() == 0,
            !state.finished,
            state.error is None,
    {
        TuiState {
            src,
            dst,
            total_files: 0,
            total_bytes: 0,
            done_files: 0,
            done_bytes: 0,
            skipped: 0,
            literal: 0,
            matched: 0,
            recent: VecDeque::new(),
            speed_window: VecDeque::new(),
            finished: false,
            error: None,
        }
    }

    /// Takes in a file that was done at the time `now`.
    fn apply_file(&mut self, r: FileRecord, now: u64)
        ensures
            after_file(*old(self), *final(self), r, now),
            final(self).src == old(self).src,
            final(self).dst == old(self).dst,
    {
        self.done_bytes = add64(self.done_bytes, r.size);
        if r.skipped {
            self.skipped = count_up(self.skipped);
        } else {
            self.done_files = count_up(self.done_files);
            self.literal = add64(self.literal, r.literal);
            self.matched = add64(self.matched, r.matched);
        }
        self.speed_window.push_back((now, self.done_bytes));
        let ghost start = *self;
        let ghost wanted = recent_part(self.speed_window@, now as int);
        while self.speed_window.len() > 1 && now > self.speed_window[0].0 && now
            - self.speed_window[0].0 > SPEED_SPAN
            invariant
                wanted == recent_part(self.speed_window@, now as int),
                *self == (TuiState { speed_window: self.speed_window, ..start }),
            decreases self.speed_window@.len(),
        {
            let ghost before = self.speed_window@;
            self.speed_window.pop_front();
            assert(self.speed_window@ =~= before.skip(1));
        }
        if self.recent.len() >= MAX_RECENT {
            let ghost before = self.recent@;
            self.recent.pop_front();
            assert(self.recent@ =~= before.skip(1));
        }
        self.recent.push_back(r);
    }

    /// Takes in an event that came at the time `now`.
    pub fn apply(&mut self, ev: ProgressEvent, now: u64)
        ensures
            after_event(*old(self), *final(self), ev, now),
    {
        match ev {
            ProgressEvent::Start { total_files, total_bytes } => {
                self.total_files = total_files;
                self.total_bytes = total_bytes;
            },
            ProgressEvent::File(r) => {
                self.apply_file(r, now);
            },
            ProgressEvent::Done(s) => {
                self.done_files = s.files_xferred;
                self.skipped = s.files_skipped;
                self.literal = s.literal_bytes;
                self.matched = s.matched_bytes;
                self.done_bytes = s.total_size;
                self.finished = true;
            },
            ProgressEvent::Error(msg) => {
                self.error = Some(msg);
                self.finished = true;
            },
        }
    }

    /// Takes in that no more events will come. Where neither an end nor an
    /// error was reported, that is an error.
    pub fn disconnect(&mut self, has_stats: bool)
        ensures
            final(self).finished,
            old(self).error is Some || has_stats ==> final(self).error == old(self).error,
            old(self).error is None && !has_stats ==> (final(self).error matches Some(msg) && msg@
                == "progress channel disconnected"@),
            *final(self) == (TuiState {
                finished: true,
                error: final(self).error,
                ..*old(self)
            }),
    {
        if self.error.is_none() && !has_stats {
            self.error = Some("progress channel disconnected".to_owned());
        }
        self.finished = true;
    }

    /// The bytes done over the window and the nanoseconds they took, where that
    /// is long enough to tell a speed.
    pub fn speed_sample(&self) -> (sample: Option<(u64, u64)>)
        ensures
            sample == sample_of(self.speed_window@),
    {
        let n: usize = self.speed_window.len();
        if n < 2 {
            return None;
        }
        let (t0, b0) = self.speed_window[0];
        let (t1, b1) = self.speed_window[n - 1];
        if t1 < t0 || t1 - t0 < SPEED_LEAST {
            return None;
        }
        let bytes: u64 = if b1 >= b0 {
            b1 - b0
        } else {
            0
        };
        Some((bytes, t1 - t0))
    }

    /// The bytes that are left to do.
    pub fn remaining(&self) -> (left: u64)
        ensures
            left == left_to_do(self.total_bytes, self.done_bytes),
    {
        if self.total_bytes >= self.done_bytes {
            self.total_bytes - self.done_bytes
        } else {
            0
        }
    }
}

// ---------------------------------------------------------------------------
// Texts
// ---------------------------------------------------------------------------

/// A number with a zero in front where it has one digit.
pub open spec fn two_digits(n: nat) -> Seq<char> {
    if n < 10 {
        seq!['0'] + decimal(n)
    } else {
        decimal(n)
    }
}

/// Hours, minutes and seconds.
pub open spec fn clock(h: nat, m: nat, s: nat) -> Seq<char> {
    two_digits(h) + seq![':'] + two_digits(m) + seq![':'] + two_digits(s)
}

/// Adds a number with a zero in front where it has one digit.
fn push_two_digits(out: &mut Vec<char>, n: u64)
    ensures
        final(out)@ == old(out)@ + two_digits(n as nat),
{
    if n < 10 {
        out.push('0');
    }
    out.extend_from_slice(format_number(n).as_slice());
    assert(out@ =~= old(out)@ + two_digits(n as nat));
}

/// Hours, minutes and seconds as text.
fn clock_text(h: u64, m: u64, s: u64) -> (text: String)
    ensures
        text@ == clock(h as nat, m as nat, s as nat),
{
    let mut out: Vec<char> = Vec::new();
    push_two_digits(&mut out, h);
    out.push(':');
    push_two_digits(&mut out, m);
    out.push(':');
    push_two_digits(&mut out, s);
    assert(out@ =~= clock(h as nat, m as nat, s as nat));
    string_of(out.as_slice())
}

/// A time still to go on a clock.
pub open spec fn eta_clock(secs: Option<u64>) -> Seq<char> {
    match secs {
        None => "--:--:--"@,
        Some(s) => clock((s / 3600) as nat, ((s % 3600) / 60) as nat, (s % 60) as nat),
    }
}

/// A time still to go, as text.
pub fn eta_str(secs: Option<u64>) -> (text: String)
    ensures
        text@ == eta_clock(secs),
{
    match secs {
        None => "--:--:--".to_owned(),
        Some(s) => clock_text(s / 3600, (s % 3600) / 60, s % 60),
    }
}

/// The time of day on a clock.
pub open spec fn day_clock(secs: u64) -> Seq<char> {
    clock(((secs / 3600) % 24) as nat, ((secs / 60) % 60) as nat, (secs % 60) as nat)
}

/// The time of day, as text, for so many seconds since midnight on some day.
pub fn time_of_day(secs: u64) -> (text: String)
    ensures
        text@ == day_clock(secs),
{
    clock_text((secs / 3600) % 24, (secs / 60) % 60, secs % 60)
}

/// So many spaces.
pub open spec fn spaces(n: int) -> Seq<char> {
    Seq::new(
        if n > 0 {
            n as nat
        } else {
            0
        },
        |i: int| ' ',
    )
}

/// A path in a column of `max` bytes: filled up with spaces to as many
/// characters, or cut at its front.
pub open spec fn in_column(p: Seq<char>, max: int) -> Seq<char> {
    let bytes = encode_utf8(p);
    if bytes.len() <= max {
        p + spaces(max - p.len())
    } else {
        seq!['>'] + decode_utf8(bytes.skip(bytes.len() - max + 1))
    }
}

/// A path in a column of `max` bytes. A path that is too long is cut where a
/// character starts.
pub fn trim_path(p: &str, max: usize) -> (text: String)
    requires
        encode_utf8(p@).len() > max ==> 0 < max && is_char_boundary(
            encode_utf8(p@),
            encode_utf8(p@).len() - max + 1,
        ),
    ensures
        text@ == in_column(p@, max as int),
{
    let size: usize = p.as_bytes().len();
    if size <= max {
        let mut out: Vec<char> = chars_of(p);
        let ghost chars = out@;
        while out.len() < max
            invariant
                out@.len() >= chars.len(),
                out@.len() <= max || out@ == chars,
                out@ == chars + spaces(out@.len() - chars.len()),
            decreases max - out@.len(),
        {
            let ghost n = out@.len() - chars.len();
            out.push(' ');
            assert(out@ =~= chars + spaces(n + 1));
        }
        assert(out@ =~= chars + spaces(max - chars.len()));
        return string_of(out.as_slice());
    }
    let (_, tail) = p.split_at(size - (max - 1));
    proof {
        encode_utf8_decode_utf8(tail@);
        assert(encode_utf8(tail@) =~= encode_utf8(p@).skip(size - max + 1));
    }
    let mut out: Vec<char> = vec!['>'];
    out.extend_from_slice(chars_of(tail).as_slice());
    assert(out@ =~= in_column(p@, max as int));
    string_of(out.as_slice())
}

/// How many of a hundred bytes were sent, as far as 64 bits hold the product.
pub open spec fn percent_sent(literal: u64, matched: u64) -> int {
    if literal + matched == 0 {
        0
    } else if literal * 100 > u64::MAX {
        u64::MAX as int / (literal + matched)
    } else {
        literal * 100 / (literal + matched)
    }
}

/// How many of a hundred bytes of a file were sent.
pub fn literal_percent(literal: u64, matched: u64) -> (percent: u64)
    requires
        literal + matched <= u64::MAX,
    ensures
        percent == percent_sent(literal, matched),
{
    let total: u64 = literal + matched;
    if total == 0 {
        return 0;
    }
    let scaled: u64 = match literal.checked_mul(100) {
        Some(n) => n,
        None => u64::MAX,
    };
    scaled / total
}

// ---------------------------------------------------------------------------
// Laws
// ---------------------------------------------------------------------------

/// The display never remembers more files than it has room for.
pub proof fn law_recent_is_bounded(before: TuiState, after: TuiState, ev: ProgressEvent, now: u64)
    requires
        before.recent@.len() <= MAX_RECENT,
        after_event(before, after, ev, now),
    ensures
        after.recent@.len() <= MAX_RECENT,
{
}

/// The window keeps the newest sample, and every other sample that it keeps is at
/// most as old as the span.
pub proof fn law_window_is_recent(window: Seq<(u64, u64)>, now: int)
    requires
        window.len() > 0,
        forall|i: int, j: int|
            0 <= i <= j < window.len() ==> (#[trigger] window[i]).0 <= (#[trigger] window[j]).0,
    ensures
        recent_part(window, now).len() > 0,
        recent_part(window, now).last() == window.last(),
        forall|i: int|
            0 <= i < recent_part(window, now).len() - 1 ==> now - (#[trigger] recent_part(
                window,
                now,
            )[i]).0 <= SPEED_SPAN,
    decreases window.len(),
{
    if window.len() > 1 && now - window[0].0 > SPEED_SPAN {
        let rest = window.skip(1);
        assert forall|i: int, j: int| 0 <= i <= j < rest.len() implies (#[trigger] rest[i]).0 <= (
        #[trigger] rest[j]).0 by {
            assert(rest[i] == window[i + 1] && rest[j] == window[j + 1]);
        }
        law_window_is_recent(rest, now);
    } else {
        assert forall|i: int| 0 <= i < window.len() - 1 implies now - (#[trigger] window[i]).0
            <= SPEED_SPAN by {
            assert(window[0].0 <= window[i].0);
        }
    }
}

/// A file that is done is counted once, as skipped or as done, and its size is
/// added to the bytes done; what was sent and what was had is added only for a
/// file that was not skipped. It is the newest that is remembered, behind those
/// remembered before, of which only the oldest may go.
pub proof fn law_finished_file_is_shown(
    before: TuiState,
    after: TuiState,
    r: FileRecord,
    now: u64,
)
    requires
        after_event(before, after, ProgressEvent::File(r), now),
        before.skipped < usize::MAX && before.done_files < usize::MAX,
        before.done_bytes + r.size <= u64::MAX,
        before.literal + r.literal <= u64::MAX,
        before.matched + r.matched <= u64::MAX,
    ensures
        after.done_bytes == before.done_bytes + r.size,
        after.skipped + after.done_files == before.skipped + before.done_files + 1,
        r.skipped ==> after.skipped == before.skipped + 1 && after.literal == before.literal
            && after.matched == before.matched,
        !r.skipped ==> after.done_files == before.done_files + 1 && after.literal == before.literal
            + r.literal && after.matched == before.matched + r.matched,
        after.recent@.len() > 0 && after.recent@.last() == r,
        before.recent@.len() < 200 ==> after.recent@ == before.recent@.push(r),
        before.recent@.len() == 200 ==> after.recent@.len() == 200 && after.recent@
            == before.recent@.skip(1).push(r),
        after.total_files == before.total_files && after.total_bytes == before.total_bytes,
        after.finished == before.finished && after.error == before.error,
{
}

/// The end of a run shows its final counts, and an error its message; both end the
/// display, and nothing else does.
pub proof fn law_end_shows_the_counts(
    before: TuiState,
    after: TuiState,
    ev: ProgressEvent,
    now: u64,
)
    requires
        after_event(before, after, ev, now),
    ensures
        ev matches ProgressEvent::Done(s) ==> after.finished && after.done_files == s.files_xferred
            && after.skipped == s.files_skipped && after.literal == s.literal_bytes
            && after.matched == s.matched_bytes && after.done_bytes == s.total_size && after.error
            == before.error,
        ev matches ProgressEvent::Error(msg) ==> after.finished && after.error == Some(msg)
            && after.done_files == before.done_files,
        ev matches ProgressEvent::Start { total_files, total_bytes } ==> after.total_files
            == total_files && after.total_bytes == total_bytes && after.done_files
            == before.done_files && after.finished == before.finished,
        !(ev is Done) && !(ev is Error) ==> after.finished == before.finished,
{
}

/// A clock shows two digits each for hours, minutes and seconds, with colons
/// between, where none of them exceeds 99.
pub proof fn law_clock_shows_two_digits(h: nat, m: nat, s: nat)
    requires
        h < 100 && m < 100 && s < 100,
    ensures
        clock(h, m, s) == seq![
            ('0' as int + h / 10) as char,
            ('0' as int + h % 10) as char,
            ':',
            ('0' as int + m / 10) as char,
            ('0' as int + m % 10) as char,
            ':',
            ('0' as int + s / 10) as char,
            ('0' as int + s % 10) as char,
        ],
{
    lemma_two_digits(h);
    lemma_two_digits(m);
    lemma_two_digits(s);
    assert(clock(h, m, s) =~= seq![
        ('0' as int + h / 10) as char,
        ('0' as int + h % 10) as char,
        ':',
        ('0' as int + m / 10) as char,
        ('0' as int + m % 10) as char,
        ':',
        ('0' as int + s / 10) as char,
        ('0' as int + s % 10) as char,
    ]);
}

proof fn lemma_two_digits(n: nat)
    requires
        n < 100,
    ensures
        two_digits(n) == seq![('0' as int + n / 10) as char, ('0' as int + n % 10) as char],
{
    law_digits_are_the_number(n / 10, n % 10);
    if n >= 10 {
        law_digits_are_the_number(0, n / 10);
        assert(10 * (n / 10) + n % 10 == n);
    } else {
        law_digits_are_the_number(0, n);
    }
    assert(two_digits(n) =~= seq![('0' as int + n / 10) as char, ('0' as int + n % 10) as char]);
}

/// A path that fits in its column stands at its front, with spaces behind it up to
/// the width; one that does not is marked and keeps its end.
pub proof fn law_column_holds_the_path(p: Seq<char>, max: int)
    ensures
        encode_utf8(p).len() <= max ==> in_column(p, max).len() >= max && in_column(p, max).take(
            p.len() as int,
        ) == p && forall|i: int|
            p.len() <= i < in_column(p, max).len() ==> in_column(p, max)[i] == ' ',
        encode_utf8(p).len() > max ==> in_column(p, max).len() > 0 && in_column(p, max)[0] == '>',
{
    if encode_utf8(p).len() <= max {
        assert(in_column(p, max).take(p.len() as int) =~= p);
    }
}

/// What is left and what is done make the total, and nothing is left where more is
/// done than that.
pub proof fn law_left_and_done_make_the_total(total: u64, done: u64)
    ensures
        done <= total ==> left_to_do(total, done) + done == total,
        done > total ==> left_to_do(total, done) == 0,
{
}

/// A speed is told from the first and the last sample, ten milliseconds apart or
/// more, whatever lies between them.
pub proof fn law_speed_is_over_the_window(
    first: (u64, u64),
    between: Seq<(u64, u64)>,
    last: (u64, u64),
)
    ensures
        first.0 + 10_000_000 <= last.0 && first.1 <= last.1 ==> (sample_of(
            seq![first] + between + seq![last],
        ) matches Some((bytes, nanos)) && first.1 + bytes == last.1 && first.0 + nanos == last.0),
        first.0 + 10_000_000 > last.0 ==> sample_of(seq![first] + between + seq![last]) is None,
        sample_of(seq![first]) is None,
        sample_of(Seq::empty()) is None,
{
    let w = seq![first] + between + seq![last];
    assert(w[0] == first);
    assert(w[w.len() - 1] == last);
}

/// A time still to go is shown in its hours, minutes and seconds.
pub proof fn law_time_to_go_is_shown(h: u64, m: u64, s: u64)
    requires
        m < 60,
        s < 60,
        3600 * h + 60 * m + s <= u64::MAX,
    ensures
        eta_clock(Some((3600 * h + 60 * m + s) as u64)) == clock(h as nat, m as nat, s as nat),
        eta_clock(None) == "--:--:--"@,
{
    lemma_time_parts(h as int, m as int, s as int);
}

proof fn lemma_time_parts(h: int, m: int, s: int)
    requires
        0 <= h,
        0 <= m < 60,
        0 <= s < 60,
    ensures
        (3600 * h + 60 * m + s) / 3600 == h,
        (3600 * h + 60 * m + s) % 3600 == 60 * m + s,
        (3600 * h + 60 * m + s) / 60 == 60 * h + m,
        (60 * h + m) % 60 == m,
        (60 * m + s) / 60 == m,
        (3600 * h + 60 * m + s) % 60 == s,
{
}

/// The time of day is shown in its hours, minutes and seconds, on any day.
pub proof fn law_time_of_day_is_shown(d: u64, h: u64, m: u64, s: u64)
    requires
        h < 24,
        m < 60,
        s < 60,
        86400 * d + 3600 * h + 60 * m + s <= u64::MAX,
    ensures
        day_clock((86400 * d + 3600 * h + 60 * m + s) as u64) == clock(
            h as nat,
            m as nat,
            s as nat,
        ),
{
    lemma_time_parts(24 * d + h, m as int, s as int);
    assert((24 * d + h) % 24 == h);
}

/// The share that was sent is between none and all of a hundred: all where nothing
/// was had, none where nothing was sent, and never more where more was had. So for
/// as many bytes as 64 bits hold a hundred times.
pub proof fn law_share_is_of_a_hundred(literal: u64, matched: u64)
    requires
        literal + matched <= u64::MAX,
        literal * 100 <= u64::MAX,
    ensures
        0 <= percent_sent(literal, matched) <= 100,
        percent_sent(0, matched) == 0,
        literal > 0 ==> percent_sent(literal, 0) == 100,
        literal + matched > 0 ==> percent_sent(literal, matched) * (literal + matched) <= literal
            * 100 < (percent_sent(literal, matched) + 1) * (literal + matched),
{
    let a = literal as int * 100;
    let b = literal as int + matched as int;
    if b > 0 {
        let q = a / b;
        vstd::arithmetic::div_mod::lemma_fundamental_div_mod(a, b);
        assert(q * b <= a < (q + 1) * b) by (nonlinear_arith)
            requires
                a == b * q + a % b,
                0 <= a % b < b,
                q == a / b,
        ;
        assert(0 <= q <= 100) by (nonlinear_arith)
            requires
                q * b <= a < (q + 1) * b,
                0 <= a <= 100 * b,
                b > 0,
        ;
    }
    if matched > 0 {
        assert(0int / (matched as int) == 0) by (nonlinear_arith)
            requires
                matched > 0,
        ;
    }
    if literal > 0 {
        assert((literal as int * 100) / (literal as int) == 100) by (nonlinear_arith)
            requires
                literal > 0,
        ;
    }
}

/// Only samples of more than four seconds ago leave the window, the oldest first, and
/// all of them but the newest sample do.
pub proof fn law_window_drops_the_old(window: Seq<(u64, u64)>, now: int)
    requires
        window.len() > 0,
    ensures
        ({
            let kept = recent_part(window, now);
            let k = window.len() - kept.len();
            &&& 0 <= k < window.len()
            &&& kept == window.skip(k)
            &&& forall|i: int| 0 <= i < k ==> now - (#[trigger] window[i]).0 > 4_000_000_000
            &&& kept.len() > 1 ==> now - kept[0].0 <= 4_000_000_000
        }),
    decreases window.len(),
{
    if window.len() > 1 && now - window[0].0 > SPEED_SPAN {
        let rest = window.skip(1);
        law_window_drops_the_old(rest, now);
        let kept = recent_part(rest, now);
        let k = window.len() - kept.len();
        assert(rest.skip(k - 1) =~= window.skip(k));
        assert forall|i: int| 0 <= i < k implies now - (#[trigger] window[i]).0 > 4_000_000_000 by {
            if i > 0 {
                assert(rest[i - 1] == window[i]);
            }
        }
    } else {
        assert(window.skip(0) =~= window);
    }
}

/// With every file that is done, the bytes done so far are the newest sample.
pub proof fn law_finished_file_is_a_sample(
    before: TuiState,
    after: TuiState,
    r: FileRecord,
    now: u64,
)
    requires
        after_event(before, after, ProgressEvent::File(r), now),
    ensures
        after.speed_window@.len() > 0,
        after.speed_window@.last() == (now, after.done_bytes),
{
    law_window_drops_the_old(before.speed_window@.push((now, after.done_bytes)), now as int);
}

} // verus!
