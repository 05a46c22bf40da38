//! Channel readings and polarity-aware aggregation.

use vstd::prelude::*;

verus! {

/// Whether positive magnitude on a channel means power flowing into
/// the system (`Source`) or out of it (`Drain`).  `Unknown` is treated
/// as `Drain` when aggregating.
#[derive(Clone, Copy, Debug, PartialEq, Eq, Structural)]
pub enum CurrentType {
    Source,
    Drain,
    Unknown,
}

/// The sign a channel's magnitude contributes to the net value.
pub open spec fn polarity_sign(t: CurrentType) -> int {
    match t {
        CurrentType::Source => 1,
        CurrentType::Drain => -1,
        CurrentType::Unknown => -1,
    }
}

impl CurrentType {
    /// The polarity's name, as it appears in the CSV header.
    pub fn label(&self) -> (r: &'static str)
        ensures
            r@ == polarity_label(*self),
    {
        match self {
            CurrentType::Source => "Source",
            CurrentType::Drain => "Drain",
            CurrentType::Unknown => "Unknown",
        }
    }
}

pub open spec fn polarity_label(t: CurrentType) -> Seq<char> {
    match t {
        CurrentType::Source => "Source"@,
        CurrentType::Drain => "Drain"@,
        CurrentType::Unknown => "Unknown"@,
    }
}

/// One non-negative magnitude sample for one channel, in milli-units.
#[derive(Clone, Copy, Debug, PartialEq, Eq, Structural)]
pub struct Current {
    pub milli: u32,
}

impl Current {
    pub fn new(milli: u32) -> (r: Self)
        ensures
            r.milli == milli,
    {
        Current { milli }
    }
}

impl Default for Current {
    fn default() -> (r: Self)
        ensures
            r.milli == 0,
    {
        Current { milli: 0 }
    }
}

/// Sum of the first `k` polarity-signed magnitudes: Source channels
/// add their magnitude, Drain and Unknown channels subtract it.
pub open spec fn net_prefix(r: Seq<Current>, p: Seq<CurrentType>, k: int) -> int
    decreases k,
{
    if k <= 0 {
        0
    } else {
        net_prefix(r, p, k - 1) + polarity_sign(p[k - 1]) * r[k - 1].milli
    }
}

/// The net value of a reading array: positive while the channels
/// produce more than they drain.
pub open spec fn net_value(r: Seq<Current>, p: Seq<CurrentType>) -> int {
    net_prefix(r, p, r.len() as int)
}

/// Whether index `i` appears in the ignore list.
pub open spec fn is_ignored(ignore: Seq<usize>, i: int) -> bool {
    exists|j: int| 0 <= j < ignore.len() && ignore[j] as int == i
}

/// As `net_prefix`, but ignored indexes contribute zero.
pub open spec fn net_prefix_ignoring(
    r: Seq<Current>,
    p: Seq<CurrentType>,
    ignore: Seq<usize>,
    k: int,
) -> int
    decreases k,
{
    if k <= 0 {
        0
    } else {
        net_prefix_ignoring(r, p, ignore, k - 1) + if is_ignored(ignore, k - 1) {
            0
        } else {
            polarity_sign(p[k - 1]) * r[k - 1].milli
        }
    }
}

/// The net value with the listed channel indexes left out.
pub open spec fn net_value_ignoring(r: Seq<Current>, p: Seq<CurrentType>, ignore: Seq<usize>) -> int {
    net_prefix_ignoring(r, p, ignore, r.len() as int)
}

/// An ordered snapshot of channel readings, one per physical channel,
/// all from the same acquisition.
#[derive(Clone, Debug)]
pub struct CurrentArray {
    readings: Vec<Current>,
}

impl View for CurrentArray {
    type V = Seq<Current>;

    closed spec fn view(&self) -> Seq<Current> {
        self.readings@
    }
}

impl CurrentArray {
    pub fn new(currents: Vec<Current>) -> (r: Self)
        ensures
            r@ == currents@,
    {
        CurrentArray { readings: currents }
    }

    pub fn len(&self) -> (r: usize)
        ensures
            r == self@.len(),
    {
        self.readings.len()
    }

    pub fn get(&self, i: usize) -> (r: Current)
        requires
            i < self@.len(),
        ensures
            r == self@[i as int],
    {
        self.readings[i]
    }

    /// Positive when the array produces current on balance, negative
    /// when it drains, in milli-units.
    pub fn combine(&self, current_types: &Vec<CurrentType>) -> (r: i64)
        requires
            current_types@.len() == self@.len(),
            self@.len() <= 0x7fff_ffff,  // so the signed milli sum fits in 64 bits
        ensures
            r == net_value(self@, current_types@),
    {
        let n = self.readings.len();
        let mut acc: i64 = 0;
        let mut i: usize = 0;
        while i < n
            invariant
                i <= n == self@.len() == current_types@.len() <= 0x7fff_ffff,
                acc == net_prefix(self@, current_types@, i as int),
                -(i as int) * (u32::MAX as int) <= acc <= (i as int) * (u32::MAX as int),
            decreases n - i,
        {
            let m = self.readings[i].milli as i64;
            match current_types[i] {
                CurrentType::Source => {
                    acc = acc + m;
                },
                CurrentType::Drain => {
                    acc = acc - m;
                },
                CurrentType::Unknown => {
                    acc = acc - m;
                },
            }
            i += 1;
        }
        acc
    }

    /// As `combine`, but channels whose index appears in `to_ignore`
    /// contribute zero; duplicate or out-of-range entries there have
    /// no effect.
    pub fn combine_ignoring(&self, current_types: &Vec<CurrentType>, to_ignore: &Vec<usize>) -> (r:
        i64)
        requires
            current_types@.len() == self@.len(),
            self@.len() <= 0x7fff_ffff,  // so the signed milli sum fits in 64 bits
        ensures
            r == net_value_ignoring(self@, current_types@, to_ignore@),
    {
        let n = self.readings.len();
        let mut acc: i64 = 0;
        let mut i: usize = 0;
        while i < n
            invariant
                i <= n == self@.len() == current_types@.len() <= 0x7fff_ffff,
                acc == net_prefix_ignoring(self@, current_types@, to_ignore@, i as int),
                -(i as int) * (u32::MAX as int) <= acc <= (i as int) * (u32::MAX as int),
            decreases n - i,
        {
            if !contains_index(to_ignore, i) {
                let m = self.readings[i].milli as i64;
                match current_types[i] {
                    CurrentType::Source => {
                        acc = acc + m;
                    },
                    CurrentType::Drain => {
                        acc = acc - m;
                    },
                    CurrentType::Unknown => {
                        acc = acc - m;
                    },
                }
            }
            i += 1;
        }
        acc
    }

    /// The comma-prefixed CSV cells of the raw magnitudes, in channel
    /// order, with no signing applied.
    pub fn generate_line(&self) -> (r: String)
        ensures
            r@ == line_text(self@),
    {
        let mut line = String::new();
        let mut i: usize = 0;
        while i < self.readings.len()
            invariant
                i <= self@.len(),
                line@ == line_text(self@.subrange(0, i as int)),
            decreases self@.len() - i,
        {
            line.append(",");
            let cell = crate::decimal::format_milli(self.readings[i].milli);
            line.append(cell.as_str());
            proof {
                reveal_strlit(",");
                assert(self@.subrange(0, i + 1).drop_last() =~= self@.subrange(0, i as int));
                assert(line@ =~= line_text(self@.subrange(0, i + 1)));
            }
            i += 1;
        }
        proof {
            assert(self@.subrange(0, self@.len() as int) =~= self@);
        }
        line
    }
}

/// The text `generate_line` produces: `,` then the magnitude, for each
/// channel in order.
pub open spec fn line_text(mags: Seq<Current>) -> Seq<char>
    decreases mags.len(),
{
    if mags.len() == 0 {
        Seq::empty()
    } else {
        line_text(mags.drop_last()) + seq![','] + crate::decimal::milli_text(
            mags.last().milli as int,
        )
    }
}

proof fn lemma_prefix_ignoring_empty(r: Seq<Current>, p: Seq<CurrentType>, k: int)
    ensures
        net_prefix_ignoring(r, p, Seq::empty(), k) == net_prefix(r, p, k),
    decreases k,
{
    if k > 0 {
        lemma_prefix_ignoring_empty(r, p, k - 1);
    }
}

/// Ignoring nothing changes nothing: the net value over an empty
/// ignore list is the plain net value.
pub proof fn lemma_combine_ignoring_none(r: Seq<Current>, p: Seq<CurrentType>)
    ensures
        net_value_ignoring(r, p, Seq::empty()) == net_value(r, p),
{
    lemma_prefix_ignoring_empty(r, p, r.len() as int);
}

/// The readings with every ignored channel's magnitude replaced by zero.
pub open spec fn zero_ignored(r: Seq<Current>, ignore: Seq<usize>) -> Seq<Current> {
    Seq::new(
        r.len(),
        |i: int|
            if is_ignored(ignore, i) {
                Current { milli: 0 }
            } else {
                r[i]
            },
    )
}

proof fn lemma_prefix_zero_ignored(r: Seq<Current>, p: Seq<CurrentType>, ignore: Seq<usize>, k: int)
    requires
        k <= r.len(),
    ensures
        net_prefix_ignoring(r, p, ignore, k) == net_prefix(zero_ignored(r, ignore), p, k),
    decreases k,
{
    if k > 0 {
        lemma_prefix_zero_ignored(r, p, ignore, k - 1);
    }
}

/// Ignoring a set of channels is the same as zeroing their magnitudes
/// and combining: each ignored index's term is replaced by zero.
pub proof fn lemma_combine_ignoring_zeroes(r: Seq<Current>, p: Seq<CurrentType>, ignore: Seq<usize>)
    ensures
        net_value_ignoring(r, p, ignore) == net_value(zero_ignored(r, ignore), p),
{
    lemma_prefix_zero_ignored(r, p, ignore, r.len() as int);
}

proof fn lemma_prefix_same_members(
    r: Seq<Current>,
    p: Seq<CurrentType>,
    ig1: Seq<usize>,
    ig2: Seq<usize>,
    k: int,
)
    requires
        forall|i: int| 0 <= i < k ==> (is_ignored(ig1, i) <==> is_ignored(ig2, i)),
    ensures
        net_prefix_ignoring(r, p, ig1, k) == net_prefix_ignoring(r, p, ig2, k),
    decreases k,
{
    if k > 0 {
        lemma_prefix_same_members(r, p, ig1, ig2, k - 1);
    }
}

/// Only membership matters in the ignore list: two lists that contain
/// the same in-range indexes give the same net value, so duplicates
/// and out-of-range entries have no effect.
pub proof fn lemma_combine_ignoring_members(
    r: Seq<Current>,
    p: Seq<CurrentType>,
    ig1: Seq<usize>,
    ig2: Seq<usize>,
)
    requires
        forall|i: int| 0 <= i < r.len() ==> (is_ignored(ig1, i) <==> is_ignored(ig2, i)),
    ensures
        net_value_ignoring(r, p, ig1) == net_value_ignoring(r, p, ig2),
{
    lemma_prefix_same_members(r, p, ig1, ig2, r.len() as int);
}

/// Whether `x` appears in `v`.
fn contains_index(v: &Vec<usize>, x: usize) -> (r: bool)
    ensures
        r == is_ignored(v@, x as int),
{
    let mut j: usize = 0;
    while j < v.len()
        invariant
            j <= v@.len(),
            forall|t: int| 0 <= t < j ==> v@[t] != x,
        decreases v@.len() - j,
    {
        if v[j] == x {
            return true;
        }
        j += 1;
    }
    false
}

/// Why a raw meter line could not be turned into readings.
#[derive(Debug)]
pub enum ReadError {
    /// The record has too few tokens to be a well-formed meter frame;
    /// carries the raw record and its token count for diagnosis.
    MalformedFrame { line: String, token_count: usize },
    /// A channel token is not a decimal magnitude that fits; carries
    /// the token and its position in the record.
    ParseError { index: usize, token: String },
}

/// The text after the last newline of a read batch: earlier records in
/// the same batch are stale and discarded.
pub open spec fn last_record(s: Seq<char>) -> Seq<char>
    decreases s.len(),
{
    if s.len() == 0 {
        s
    } else if s.last() == '\n' {
        Seq::empty()
    } else {
        last_record(s.drop_last()).push(s.last())
    }
}

/// The single-space-delimited tokens of a record, empty tokens kept.
pub open spec fn split_tokens(s: Seq<char>) -> Seq<Seq<char>>
    decreases s.len(),
{
    if s.len() == 0 {
        seq![Seq::empty()]
    } else if s.last() == ' ' {
        split_tokens(s.drop_last()).push(Seq::empty())
    } else {
        let t = split_tokens(s.drop_last());
        t.update(t.len() - 1, t.last().push(s.last()))
    }
}

/// The tokens of the authoritative (last) record of a read batch.
pub open spec fn frame_tokens(lines: Seq<char>) -> Seq<Seq<char>> {
    split_tokens(last_record(lines))
}

/// A channel token that parses and whose magnitude fits.
pub open spec fn token_ok(t: Seq<char>) -> bool {
    crate::decimal::is_decimal(t) && crate::decimal::decimal_milli(t) <= u32::MAX
}

/// A well-formed frame for `n` channels: more than 15 tokens, and the
/// tokens at positions 1 through `n` are in-range decimal magnitudes.
pub open spec fn frame_ok(lines: Seq<char>, n: int) -> bool {
    &&& frame_tokens(lines).len() > 15
    &&& forall|i: int| 1 <= i <= n ==> token_ok(#[trigger] frame_tokens(lines)[i])
}

proof fn lemma_last_record_suffix(s: Seq<char>, start: int)
    requires
        0 <= start <= s.len(),
        start > 0 ==> s[start - 1] == '\n',
        forall|j: int| start <= j < s.len() ==> s[j] != '\n',
    ensures
        last_record(s) == s.subrange(start, s.len() as int),
    decreases s.len(),
{
    if start == s.len() {
        if s.len() > 0 && start > 0 {
            assert(s.last() == '\n');
        }
        assert(last_record(s) =~= s.subrange(start, s.len() as int));
    } else {
        assert(s.last() != '\n');
        assert(s.drop_last() =~= s.subrange(0, s.len() - 1));
        lemma_last_record_suffix(s.drop_last(), start);
        assert(s.drop_last().subrange(start, s.len() - 1) =~= s.subrange(start, s.len() - 1));
        assert(s.subrange(start, s.len() - 1).push(s.last()) =~= s.subrange(
            start,
            s.len() as int,
        ));
    }
}

/// Validates and parses one read batch into the `n` channel readings
/// of its last record.  The record must have more than 15 tokens;
/// tokens 1 through `n` (token 0 is a header field) are the channel
/// magnitudes, in order.
pub fn parse_frame(lines: &str, n: usize) -> (r: Result<CurrentArray, ReadError>)
    requires
        n <= 15,
    ensures
        r is Ok <==> frame_ok(lines@, n as int),
        match r {
            Ok(arr) => {
                &&& arr@.len() == n
                &&& forall|i: int|
                    0 <= i < n ==> #[trigger] arr@[i].milli == crate::decimal::decimal_milli(
                        frame_tokens(lines@)[i + 1],
                    )
            },
            Err(ReadError::MalformedFrame { line, token_count }) => {
                &&& frame_tokens(lines@).len() <= 15
                &&& line@ == last_record(lines@)
                &&& token_count == frame_tokens(lines@).len()
            },
            Err(ReadError::ParseError { index, token }) => {
                &&& frame_tokens(lines@).len() > 15
                &&& 1 <= index <= n
                &&& token@ == frame_tokens(lines@)[index as int]
                &&& !token_ok(token@)
                &&& forall|i: int| 1 <= i < index ==> token_ok(#[trigger] frame_tokens(lines@)[i])
            },
        },
{
    let len = lines.unicode_len();
    let mut start: usize = 0;
    let mut i: usize = 0;
    while i < len
        invariant
            start <= i <= len == lines@.len(),
            start > 0 ==> lines@[start - 1] == '\n',
            forall|j: int| start <= j < i ==> lines@[j] != '\n',
        decreases len - i,
    {
        if lines.get_char(i) == '\n' {
            start = i + 1;
        }
        i += 1;
    }
    let record = lines.substring_char(start, len);
    proof {
        lemma_last_record_suffix(lines@, start as int);
    }
    let rlen = record.unicode_len();
    let mut toks: Vec<&str> = Vec::new();
    let mut tstart: usize = 0;
    let mut k: usize = 0;
    proof {
        assert(split_tokens(record@.subrange(0, 0)) =~~= toks@.map_values(
            |t: &str| t@,
        ).push(record@.subrange(0, 0)));
    }
    while k < rlen
        invariant
            tstart <= k <= rlen == record@.len(),
            split_tokens(record@.subrange(0, k as int)) == toks@.map_values(|t: &str| t@).push(
                record@.subrange(tstart as int, k as int),
            ),
        decreases rlen - k,
    {
        let ghost pre = record@.subrange(0, k as int);
        let ghost cur = record@.subrange(tstart as int, k as int);
        let c = record.get_char(k);
        proof {
            assert(record@.subrange(0, k + 1).drop_last() =~= pre);
            assert(record@.subrange(0, k + 1).last() == record@[k as int]);
        }
        if c == ' ' {
            let tok = record.substring_char(tstart, k);
            toks.push(tok);
            tstart = k + 1;
            proof {
                assert(split_tokens(record@.subrange(0, k + 1)) =~~= toks@.map_values(
                    |t: &str| t@,
                ).push(record@.subrange(tstart as int, k + 1)));
            }
        } else {
            proof {
                let t = split_tokens(pre);
                assert(cur.push(record@[k as int]) =~= record@.subrange(tstart as int, k + 1));
                assert(t.update(t.len() - 1, t.last().push(record@[k as int])) =~~= toks@.map_values(
                    |t: &str| t@,
                ).push(record@.subrange(tstart as int, k + 1)));
            }
        }
        k += 1;
    }
    let tok = record.substring_char(tstart, rlen);
    toks.push(tok);
    proof {
        assert(record@.subrange(0, rlen as int) =~= record@);
        assert(frame_tokens(lines@) =~~= toks@.map_values(|t: &str| t@));
    }
    let ghost ftoks = frame_tokens(lines@);
    let count = toks.len();
    if count <= 15 {
        return Err(ReadError::MalformedFrame { line: record.to_owned(), token_count: count });
    }
    let mut currents: Vec<Current> = Vec::new();
    let mut idx: usize = 1;
    while idx <= n
        invariant
            1 <= idx <= n + 1,
            n <= 15,
            ftoks == frame_tokens(lines@),
            ftoks == toks@.map_values(|t: &str| t@),
            toks@.len() > 15,
            currents@.len() == idx - 1,
            forall|i: int| 1 <= i < idx ==> token_ok(#[trigger] ftoks[i]),
            forall|i: int|
                0 <= i < idx - 1 ==> #[trigger] currents@[i].milli == crate::decimal::decimal_milli(
                    ftoks[i + 1],
                ),
        decreases n + 1 - idx,
    {
        let t = toks[idx];
        proof {
            assert(ftoks[idx as int] == t@);
        }
        match crate::decimal::parse_milli(t) {
            Some(v) => {
                currents.push(Current::new(v));
            },
            None => {
                return Err(ReadError::ParseError { index: idx, token: t.to_owned() });
            },
        }
        idx += 1;
    }
    Ok(CurrentArray::new(currents))
}

} // verus!
