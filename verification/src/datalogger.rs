//! The rotating CSV logger's state machine.

use vstd::prelude::*;

verus! {

use crate::current_monitor::{Current, CurrentArray, CurrentType, line_text, polarity_label};

pub const SECONDS_PER_DAY: u64 = 86400;

/// A wall-clock instant, in whole seconds since the Unix epoch.
#[derive(Clone, Copy, Debug, PartialEq, Eq, Structural)]
pub struct Time {
    pub secs: u64,
}

impl Time {
    /// Relies on `std::time::SystemTime::now` and
    /// `duration_since(UNIX_EPOCH)` for the current wall-clock time;
    /// a clock before the epoch reads as zero.  Nothing can be
    /// promised of the value.
    #[verifier::external_body]
    pub fn new_unix_time() -> Time {
        let secs = match std::time::SystemTime::now().duration_since(std::time::UNIX_EPOCH) {
            Ok(d) => d.as_secs(),
            Err(_) => 0,
        };
        Time { secs }
    }

    /// The day number this instant falls in.
    pub fn get_day(&self) -> (r: u64)
        ensures
            r == self.secs / SECONDS_PER_DAY,
    {
        self.secs / SECONDS_PER_DAY
    }
}

/// The day-file name for day `day`, at disambiguation attempt `i`:
/// `D<day>.csv` first, then `D<day>_2.csv`, `D<day>_3.csv`, ...
pub open spec fn file_name_text(day: int, i: int) -> Seq<char> {
    if i == 1 {
        seq!['D'] + crate::decimal::dec_digits(day) + ".csv"@
    } else {
        seq!['D'] + crate::decimal::dec_digits(day) + seq!['_'] + crate::decimal::dec_digits(i)
            + ".csv"@
    }
}

/// `name` is the first candidate day-file name not already present in
/// `existing`: every earlier candidate is taken, so a same-day file
/// from a prior run is never overwritten.
pub open spec fn is_chosen_name(day: int, existing: Seq<Seq<char>>, name: Seq<char>) -> bool {
    exists|i: int|
        {
            &&& 1 <= i
            &&& name == file_name_text(day, i)
            &&& !existing.contains(name)
            &&& forall|j: int| 1 <= j < i ==> existing.contains(#[trigger] file_name_text(day, j))
        }
}

proof fn lemma_file_name_injective(day: int, i: int, j: int)
    requires
        day >= 0,
        1 <= i < j,
    ensures
        file_name_text(day, i) != file_name_text(day, j),
{
    reveal_strlit(".csv");
    crate::decimal::lemma_dec_digits_val(day);
    crate::decimal::lemma_dec_digits_val(i);
    crate::decimal::lemma_dec_digits_val(j);
    let dd = crate::decimal::dec_digits(day);
    let dj = crate::decimal::dec_digits(j);
    let b = file_name_text(day, j);
    assert(b.len() == 6 + dd.len() + dj.len());
    if i == 1 {
        assert(file_name_text(day, i).len() == 5 + dd.len());
    } else {
        let di = crate::decimal::dec_digits(i);
        let a = file_name_text(day, i);
        assert(a.len() == 6 + dd.len() + di.len());
        if a == b {
            assert(di.len() == dj.len());
            let off = 2 + dd.len() as int;
            assert(a.subrange(off, off + di.len()) =~= di);
            assert(b.subrange(off, off + dj.len()) =~= dj);
            assert(di == dj);
            assert(crate::decimal::digits_val(di) == crate::decimal::digits_val(dj));
            assert(false);
        }
    }
}

/// If the first `m` candidate names are all present in `existing`,
/// then `existing` holds at least `m` entries: probing stops within
/// `existing.len() + 1` attempts.
proof fn lemma_probe_bound(day: int, existing: Seq<Seq<char>>, m: int)
    requires
        day >= 0,
        m >= 0,
        forall|j: int| 1 <= j <= m ==> existing.contains(#[trigger] file_name_text(day, j)),
    ensures
        m <= existing.len(),
{
    broadcast use vstd::seq_lib::seq_to_set_is_finite;

    let cands = Seq::new(m as nat, |t: int| file_name_text(day, t + 1));
    assert(cands.no_duplicates()) by {
        assert forall|x: int, y: int|
            0 <= x < cands.len() && 0 <= y < cands.len() && x != y implies cands[x] != cands[y] by {
            if x < y {
                lemma_file_name_injective(day, x + 1, y + 1);
            } else {
                lemma_file_name_injective(day, y + 1, x + 1);
            }
        }
    }
    cands.unique_seq_to_set();
    assert(cands.to_set().subset_of(existing.to_set())) by {
        assert forall|e: Seq<char>| cands.to_set().contains(e) implies existing.to_set().contains(
            e,
        ) by {
            let t = choose|t: int| 0 <= t < cands.len() && cands[t] == e;
            assert(existing.contains(file_name_text(day, t + 1)));
        }
    }
    existing.lemma_cardinality_of_set();
    vstd::set_lib::lemma_len_subset(cands.to_set(), existing.to_set());
}

/// Whether `name` appears in `v`.
fn contains_name(v: &Vec<String>, name: &String) -> (r: bool)
    ensures
        r == v.deep_view().contains(name@),
{
    let mut j: usize = 0;
    while j < v.len()
        invariant
            j <= v@.len(),
            forall|t: int| 0 <= t < j ==> v.deep_view()[t] != name@,
        decreases v@.len() - j,
    {
        if v[j].eq(name) {
            proof {
                assert(v.deep_view()[j as int] == name@);
            }
            return true;
        }
        j += 1;
    }
    false
}

/// Prints the day-file name for day `day`, attempt `i`.
fn build_file_name(day: u64, i: u64) -> (r: String)
    requires
        1 <= i,
    ensures
        r@ == file_name_text(day as int, i as int),
{
    let mut s = String::from_str("D");
    let dd = crate::decimal::format_u64(day);
    s.append(dd.as_str());
    if i != 1 {
        s.append("_");
        let di = crate::decimal::format_u64(i);
        s.append(di.as_str());
    }
    s.append(".csv");
    proof {
        reveal_strlit("D");
        reveal_strlit("_");
        assert(s@ =~= file_name_text(day as int, i as int));
    }
    s
}

/// The first day-file name for `day` that is not already taken:
/// `D<day>.csv`, or `D<day>_2.csv`, `D<day>_3.csv`, ... when earlier
/// candidates exist.
pub fn choose_file_name(day: u64, existing: &Vec<String>) -> (r: String)
    requires
        existing@.len() < u64::MAX,
    ensures
        is_chosen_name(day as int, existing.deep_view(), r@),
        !existing.deep_view().contains(r@),
{
    let mut i: u64 = 1;
    loop
        invariant
            1 <= i <= existing@.len() + 1,
            existing@.len() < u64::MAX,
            forall|j: int|
                1 <= j < i ==> existing.deep_view().contains(#[trigger] file_name_text(
                    day as int,
                    j,
                )),
        decreases existing@.len() + 1 - i,
    {
        let name = build_file_name(day, i);
        if !contains_name(existing, &name) {
            return name;
        }
        proof {
            assert(existing.deep_view().len() == existing@.len());
            lemma_probe_bound(day as int, existing.deep_view(), i as int);
        }
        i += 1;
    }
}

/// The header over the first `k` channels.
pub open spec fn header_prefix(names: Seq<Seq<char>>, types: Seq<CurrentType>, k: int) -> Seq<char>
    decreases k,
{
    if k <= 0 {
        "Time"@
    } else {
        header_prefix(names, types, k - 1) + seq![','] + names[k - 1] + seq![' ', '(']
            + polarity_label(types[k - 1]) + seq![')']
    }
}

/// The header row of a day file:
/// `Time,<Name1> (<Polarity1>),...,<NameN> (<PolarityN>)`.
pub open spec fn header_text(names: Seq<Seq<char>>, types: Seq<CurrentType>) -> Seq<char> {
    header_prefix(names, types, names.len() as int)
}

/// A zero-padded two-digit field.
pub open spec fn pad2(v: int) -> Seq<char> {
    seq![crate::decimal::digit_char(v / 10), crate::decimal::digit_char(v % 10)]
}

/// The row timestamp: `T<HH><MM><SS>Z`, UTC.
pub open spec fn timestamp_text(h: int, m: int, s: int) -> Seq<char> {
    seq!['T'] + pad2(h) + pad2(m) + pad2(s) + seq!['Z']
}

/// A data row: the timestamp, then one comma-prefixed cell per raw
/// channel magnitude (unsigned; polarity lives in the header).
pub open spec fn row_text(h: int, m: int, s: int, mags: Seq<Current>) -> Seq<char> {
    timestamp_text(h, m, s) + line_text(mags)
}

/// Prints the data row for one reading array at time-of-day `h:m:s`.
pub fn format_row(h: u8, m: u8, s: u8, currents: &CurrentArray) -> (r: String)
    requires
        h < 24,
        m < 60,
        s < 60,
    ensures
        r@ == row_text(h as int, m as int, s as int, currents@),
{
    let mut out = String::from_str("T");
    out.append(crate::decimal::digit_str((h / 10) as u64));
    out.append(crate::decimal::digit_str((h % 10) as u64));
    out.append(crate::decimal::digit_str((m / 10) as u64));
    out.append(crate::decimal::digit_str((m % 10) as u64));
    out.append(crate::decimal::digit_str((s / 10) as u64));
    out.append(crate::decimal::digit_str((s % 10) as u64));
    out.append("Z");
    let line = currents.generate_line();
    out.append(line.as_str());
    proof {
        reveal_strlit("T");
        reveal_strlit("Z");
        assert(out@ =~= row_text(h as int, m as int, s as int, currents@));
    }
    out
}

/// What one tick asks of its caller: nothing, appending a row, or
/// first creating the new day file (with its header row) and then
/// possibly appending.
#[derive(Debug)]
pub enum TickOutcome {
    Skipped,
    Wrote { row: String },
    Rolled { header: String },
    RolledAndWrote { header: String, row: String },
}

/// The rotating CSV logger's state: which day file is current, when
/// the last row was written, and the fixed channel configuration.
pub struct DataLogger {
    pub start_time: Time,
    pub time_between_logs: u64,
    pub filename: String,
    pub last_logged: Option<u64>,
    pub day: u64,
    pub current_types: Vec<CurrentType>,
    pub names: Vec<String>,
}

/// A tick at `now` switches to a new day file: a row was written
/// before, and the day number changed.
pub open spec fn rolls_over(pre: DataLogger, now: u64) -> bool {
    &&& pre.last_logged is Some
    &&& pre.day != now / SECONDS_PER_DAY
}

/// A tick at `now` skips its write: a row was written before, less
/// than the configured interval ago.
pub open spec fn throttled(pre: DataLogger, now: u64) -> bool {
    match pre.last_logged {
        Option::Some(t) => now < t + pre.time_between_logs,
        Option::None => false,
    }
}

/// Everything one tick does, as a relation between the logger before
/// and after: configuration is kept; the day file rolls exactly when
/// `rolls_over` holds; a row is produced exactly when `throttled` does
/// not hold, and then the last-write time becomes `now`.
pub open spec fn tick_post(
    pre: DataLogger,
    post: DataLogger,
    now: u64,
    h: int,
    m: int,
    s: int,
    readings: Seq<Current>,
    existing: Seq<Seq<char>>,
    outcome: TickOutcome,
) -> bool {
    let hdr = header_text(pre.names.deep_view(), pre.current_types@);
    &&& post.start_time == pre.start_time
    &&& post.time_between_logs == pre.time_between_logs
    &&& post.current_types == pre.current_types
    &&& post.names == pre.names
    &&& if rolls_over(pre, now) {
        &&& post.day == now / SECONDS_PER_DAY
        &&& is_chosen_name(post.day as int, existing, post.filename@)
    } else {
        &&& post.day == pre.day
        &&& post.filename == pre.filename
    }
    &&& if throttled(pre, now) {
        post.last_logged == pre.last_logged
    } else {
        post.last_logged == Option::Some(now)
    }
    &&& match outcome {
        TickOutcome::Skipped => !rolls_over(pre, now) && throttled(pre, now),
        TickOutcome::Rolled { header } => rolls_over(pre, now) && throttled(pre, now) && header@
            == hdr,
        TickOutcome::Wrote { row } => !rolls_over(pre, now) && !throttled(pre, now) && row@
            == row_text(h, m, s, readings),
        TickOutcome::RolledAndWrote { header, row } => rolls_over(pre, now) && !throttled(pre, now)
            && header@ == hdr && row@ == row_text(h, m, s, readings),
    }
}

/// The UTC hour of a Unix instant.
pub open spec fn hour_of(secs: u64) -> int {
    ((secs % SECONDS_PER_DAY) / 3600) as int
}

/// The UTC minute of a Unix instant.
pub open spec fn minute_of(secs: u64) -> int {
    (((secs % SECONDS_PER_DAY) % 3600) / 60) as int
}

/// The UTC second of a Unix instant.
pub open spec fn second_of(secs: u64) -> int {
    ((secs % SECONDS_PER_DAY) % 60) as int
}

impl DataLogger {
    /// The channel configuration is consistent: one name per polarity.
    pub open spec fn wf(&self) -> bool {
        self.current_types@.len() == self.names@.len()
    }

    /// The header row for this logger's channel configuration.
    pub fn header_line(&self) -> (r: String)
        requires
            self.wf(),
        ensures
            r@ == header_text(self.names.deep_view(), self.current_types@),
    {
        let mut s = String::from_str("Time");
        let mut i: usize = 0;
        while i < self.names.len()
            invariant
                self.wf(),
                i <= self.names@.len(),
                s@ == header_prefix(self.names.deep_view(), self.current_types@, i as int),
            decreases self.names@.len() - i,
        {
            s.append(",");
            s.append(self.names[i].as_str());
            s.append(" (");
            s.append(self.current_types[i].label());
            s.append(")");
            proof {
                reveal_strlit(",");
                reveal_strlit(" (");
                reveal_strlit(")");
                assert(self.names.deep_view()[i as int] == self.names@[i as int]@);
                assert(s@ =~= header_prefix(self.names.deep_view(), self.current_types@, i + 1));
            }
            i += 1;
        }
        s
    }

    /// A fresh logger whose day and day-file name are taken from the
    /// given instant; the caller creates that file and writes
    /// `header_line` to it.
    pub fn new_at(
        time_between_logs: u64,
        now: Time,
        current_types: Vec<CurrentType>,
        names: Vec<String>,
        existing: &Vec<String>,
    ) -> (r: DataLogger)
        requires
            current_types@.len() == names@.len(),
            existing@.len() < u64::MAX,
        ensures
            r.wf(),
            r.start_time == now,
            r.time_between_logs == time_between_logs,
            r.last_logged is None,
            r.day == now.secs / SECONDS_PER_DAY,
            is_chosen_name(r.day as int, existing.deep_view(), r.filename@),
            r.current_types == current_types,
            r.names == names,
    {
        let day = now.get_day();
        let filename = choose_file_name(day, existing);
        DataLogger {
            start_time: now,
            time_between_logs,
            filename,
            last_logged: None,
            day,
            current_types,
            names,
        }
    }

    /// A fresh logger for the clock's current time.  `existing` lists
    /// the file names already present in the log directory, so that a
    /// same-day file from an earlier run is left untouched.
    pub fn new(
        time_between_logs: u64,
        current_types: Vec<CurrentType>,
        names: Vec<String>,
        existing: &Vec<String>,
    ) -> (r: DataLogger)
        requires
            current_types@.len() == names@.len(),
            existing@.len() < u64::MAX,
        ensures
            r.wf(),
            r.time_between_logs == time_between_logs,
            r.last_logged is None,
            r.day == r.start_time.secs / SECONDS_PER_DAY,
            is_chosen_name(r.day as int, existing.deep_view(), r.filename@),
            r.current_types == current_types,
            r.names == names,
    {
        let now = Time::new_unix_time();
        DataLogger::new_at(time_between_logs, now, current_types, names, existing)
    }

    /// One sampling cycle at a known instant and time of day: rolls
    /// the day file if the day changed since a previous write, then
    /// writes a row unless one was written less than the configured
    /// interval ago.
    pub fn tick_at(
        &mut self,
        now: Time,
        h: u8,
        m: u8,
        s: u8,
        current_array: &CurrentArray,
        existing: &Vec<String>,
    ) -> (r: TickOutcome)
        requires
            old(self).wf(),
            h < 24,
            m < 60,
            s < 60,
            existing@.len() < u64::MAX,
        ensures
            final(self).wf(),
            tick_post(
                *old(self),
                *final(self),
                now.secs,
                h as int,
                m as int,
                s as int,
                current_array@,
                existing.deep_view(),
                r,
            ),
    {
        let mut rolled = false;
        match self.last_logged {
            Option::Some(t) => {
                if self.day != now.get_day() {
                    let day = now.get_day();
                    self.filename = choose_file_name(day, existing);
                    self.day = day;
                    rolled = true;
                }
                if now.secs < t || now.secs - t < self.time_between_logs {
                    if rolled {
                        return TickOutcome::Rolled { header: self.header_line() };
                    } else {
                        return TickOutcome::Skipped;
                    }
                }
            },
            Option::None => {},
        }
        let row = format_row(h, m, s, current_array);
        self.last_logged = Some(now.secs);
        if rolled {
            TickOutcome::RolledAndWrote { header: self.header_line(), row }
        } else {
            TickOutcome::Wrote { row }
        }
    }

    /// One sampling cycle at the clock's current time; the row's
    /// timestamp is the time of day of the same instant the throttle
    /// and rollover decisions use.
    pub fn tick(&mut self, current_array: &CurrentArray, existing: &Vec<String>) -> (r: TickOutcome)
        requires
            old(self).wf(),
            existing@.len() < u64::MAX,
        ensures
            final(self).wf(),
            exists|now: u64|
                tick_post(
                    *old(self),
                    *final(self),
                    now,
                    hour_of(now),
                    minute_of(now),
                    second_of(now),
                    current_array@,
                    existing.deep_view(),
                    r,
                ),
    {
        let now = Time::new_unix_time();
        let sod = now.secs % SECONDS_PER_DAY;
        proof {
            vstd::arithmetic::div_mod::lemma_multiply_divide_lt(sod as int, 3600, 24);
            vstd::arithmetic::div_mod::lemma_multiply_divide_lt((sod % 3600) as int, 60, 60);
        }
        let h = (sod / 3600) as u8;
        let m = ((sod % 3600) / 60) as u8;
        let s = (sod % 60) as u8;
        let out = self.tick_at(now, h, m, s, current_array, existing);
        proof {
            assert(tick_post(
                *old(self),
                *self,
                now.secs,
                hour_of(now.secs),
                minute_of(now.secs),
                second_of(now.secs),
                current_array@,
                existing.deep_view(),
                out,
            ));
        }
        out
    }
}

/// Rate limiting: after a tick that wrote at `t1`, a second tick
/// within the interval produces no row (though it may still roll the
/// day file), and a second tick at or past the interval writes again.
pub proof fn lemma_throttle_window(
    s0: DataLogger,
    s1: DataLogger,
    s2: DataLogger,
    t1: u64,
    t2: u64,
    h1: int,
    m1: int,
    sec1: int,
    h2: int,
    m2: int,
    sec2: int,
    r1: Seq<Current>,
    r2: Seq<Current>,
    e1: Seq<Seq<char>>,
    e2: Seq<Seq<char>>,
    o1: TickOutcome,
    o2: TickOutcome,
)
    requires
        tick_post(s0, s1, t1, h1, m1, sec1, r1, e1, o1),
        tick_post(s1, s2, t2, h2, m2, sec2, r2, e2, o2),
        !throttled(s0, t1),
    ensures
        o1 is Wrote || o1 is RolledAndWrote,
        t2 < t1 + s0.time_between_logs ==> (o2 is Skipped || o2 is Rolled),
        t2 >= t1 + s0.time_between_logs ==> (o2 is Wrote || o2 is RolledAndWrote),
{
}

/// Day rollover: a tick in a new day that is not the first ever tick
/// creates the new day's file (named for the new day, never colliding
/// with an existing file) before any write; the first ever tick never
/// rolls over, however much the day changed since construction.
pub proof fn lemma_rollover(
    pre: DataLogger,
    post: DataLogger,
    now: u64,
    h: int,
    m: int,
    s: int,
    readings: Seq<Current>,
    existing: Seq<Seq<char>>,
    o: TickOutcome,
)
    requires
        tick_post(pre, post, now, h, m, s, readings, existing, o),
    ensures
        pre.last_logged is Some && pre.day != now / SECONDS_PER_DAY ==> {
            &&& o is Rolled || o is RolledAndWrote
            &&& post.day == now / SECONDS_PER_DAY
            &&& is_chosen_name(post.day as int, existing, post.filename@)
        },
        pre.last_logged is None ==> o is Wrote && post.filename == pre.filename && post.day
            == pre.day,
{
}

} // verus!
