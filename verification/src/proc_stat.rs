//! Reading the per-CPU counters as the kernel writes them out: one line per
//! CPU, `cpu` for all CPUs together and `cpuN` for CPU `N`, followed by the
//! counters. The first line that is not of this kind ends the list.
use crate::cpu_stat::{CpuStat, ProcStat};
use crate::error::ParseError;
use crate::text::{
    field_end, field_start, find_field_end, find_field_start, is_space, lemma_field_bounds, number,
    parse_number,
};
use std::collections::BTreeMap;
use vstd::prelude::*;

verus! {

/// What one line says.
pub enum StatLine {
    /// The line is not about a CPU: the list has ended.
    Stop,
    /// The line cannot be read.
    Bad(ParseError),
    /// The counters of all CPUs together.
    Total(CpuStat),
    /// The counters of one CPU.
    Cpu(usize, CpuStat),
}

/// One reading of the counters, as plain mathematics.
pub struct ProcStatView {
    pub total: CpuStat,
    pub cpus: Map<usize, CpuStat>,
}

impl View for ProcStat {
    type V = ProcStatView;

    open spec fn view(&self) -> ProcStatView {
        ProcStatView { total: self.total, cpus: self.cpus@ }
    }
}

/// Whether the first field of a line starts with `cpu`.
pub open spec fn key_is_cpu(key: Seq<u8>) -> bool {
    key.len() >= 3 && key[0] == 0x63 && key[1] == 0x70 && key[2] == 0x75
}

/// The next `n` counters of a line from `pos` on.
pub open spec fn counters(line: Seq<u8>, pos: int, n: nat) -> Result<Seq<u64>, ParseError>
    decreases n,
{
    if n == 0 {
        Ok(Seq::empty())
    } else {
        let s = field_start(line, pos);
        if s >= line.len() {
            Err(ParseError::MissingField)
        } else {
            let e = field_end(line, s);
            match number(line.subrange(s, e), u64::MAX) {
                None => Err(ParseError::BadNumber),
                Some(v) => match counters(line, e, (n - 1) as nat) {
                    Ok(rest) => Ok(seq![v] + rest),
                    Err(err) => Err(err),
                },
            }
        }
    }
}

/// The counters in the order they are written.
pub open spec fn stat_of(v: Seq<u64>) -> CpuStat {
    CpuStat {
        user: v[0],
        nice: v[1],
        system: v[2],
        idle: v[3],
        iowait: v[4],
        irq: v[5],
        softirq: v[6],
        steal: v[7],
    }
}

/// What a line says: its first field starts with `cpu`, or the list has
/// ended; eight counters follow; what follows `cpu` in the first field is the
/// number of the CPU.
pub open spec fn stat_line(line: Seq<u8>) -> StatLine {
    let ks = field_start(line, 0);
    if ks >= line.len() {
        StatLine::Bad(ParseError::NoKey)
    } else {
        let ke = field_end(line, ks);
        let key = line.subrange(ks, ke);
        if !key_is_cpu(key) {
            StatLine::Stop
        } else {
            match counters(line, ke, 8) {
                Err(err) => StatLine::Bad(err),
                Ok(v) => if key.len() == 3 {
                    StatLine::Total(stat_of(v))
                } else {
                    match number(key.skip(3), usize::MAX as u64) {
                        Some(id) => StatLine::Cpu(id as usize, stat_of(v)),
                        None => StatLine::Bad(ParseError::BadNumber),
                    }
                },
            }
        }
    }
}

/// Where the line that starts at `pos` ends: at the next line feed, or at the
/// end of the text.
pub open spec fn line_end(text: Seq<u8>, pos: int) -> int
    decreases text.len() - pos,
{
    if pos >= text.len() {
        text.len() as int
    } else if text[pos] == 0x0a {
        pos
    } else {
        line_end(text, pos + 1)
    }
}

proof fn lemma_line_end(text: Seq<u8>, pos: int)
    requires
        0 <= pos <= text.len(),
    ensures
        pos <= line_end(text, pos) <= text.len(),
    decreases text.len() - pos,
{
    if pos < text.len() && text[pos] != 0x0a {
        lemma_line_end(text, pos + 1);
    }
}

/// What the text from `pos` on adds to the reading `acc`: line after line, up
/// to the end of the text or to the first line that is not about a CPU. A
/// later line about the same CPU replaces an earlier one.
pub open spec fn scan(text: Seq<u8>, pos: int, acc: ProcStatView) -> Result<
    ProcStatView,
    ParseError,
>
    decreases text.len() + 1 - pos,
    via scan_decreases
{
    if pos >= text.len() || pos < 0 {
        Ok(acc)
    } else {
        let e = line_end(text, pos);
        match stat_line(text.subrange(pos, e)) {
            StatLine::Stop => Ok(acc),
            StatLine::Bad(err) => Err(err),
            StatLine::Total(stat) => scan(text, e + 1, ProcStatView { total: stat, cpus: acc.cpus }),
            StatLine::Cpu(id, stat) => scan(
                text,
                e + 1,
                ProcStatView { total: acc.total, cpus: acc.cpus.insert(id, stat) },
            ),
        }
    }
}

#[via_fn]
proof fn scan_decreases(text: Seq<u8>, pos: int, acc: ProcStatView) {
    if 0 <= pos < text.len() {
        lemma_line_end(text, pos);
    }
}

/// What a text of counters says.
pub open spec fn stat_text(text: Seq<u8>) -> Result<ProcStatView, ParseError> {
    scan(
        text,
        0,
        ProcStatView {
            total: CpuStat {
                user: 0,
                nice: 0,
                system: 0,
                idle: 0,
                iowait: 0,
                irq: 0,
                softirq: 0,
                steal: 0,
            },
            cpus: Map::empty(),
        },
    )
}

/// Reads the eight counters of a line from `pos` on.
fn parse_counters(text: &[u8], pos: usize, end: usize, Ghost(base): Ghost<int>) -> (r: Result<
    CpuStat,
    ParseError,
>)
    requires
        0 <= base <= pos <= end <= text@.len(),
    ensures
        match r {
            Ok(stat) => counters(text@.subrange(base, end as int), pos - base, 8) matches Ok(v)
                && stat == stat_of(v),
            Err(err) => counters(text@.subrange(base, end as int), pos - base, 8) == Err::<
                Seq<u64>,
                ParseError,
            >(err),
        },
{
    let ghost line = text@.subrange(base, end as int);
    let ghost goal = counters(line, pos - base, 8);
    let mut vals: Vec<u64> = Vec::new();
    let mut p: usize = pos;
    while vals.len() < 8
        invariant
            0 <= base <= pos <= p <= end <= text@.len(),
            line == text@.subrange(base, end as int),
            goal == counters(text@.subrange(base, end as int), pos - base, 8),
            vals@.len() <= 8,
            goal == match counters(line, p - base, (8 - vals@.len()) as nat) {
                Ok(rest) => Ok::<Seq<u64>, ParseError>(vals@ + rest),
                Err(err) => Err(err),
            },
        decreases 8 - vals@.len(),
    {
        let s: usize = find_field_start(text, p, end, Ghost(base));
        if s >= end {
            return Err(ParseError::MissingField);
        }
        let e: usize = find_field_end(text, s, end, Ghost(base));
        proof {
            assert(line.subrange(s - base, e - base) == text@.subrange(s as int, e as int));
        }
        match parse_number(text, s, e, u64::MAX) {
            None => {
                return Err(ParseError::BadNumber);
            },
            Some(v) => {
                let ghost before = vals@;
                vals.push(v);
                proof {
                    match counters(line, e - base, (8 - vals@.len()) as nat) {
                        Ok(rest) => {
                            assert(before + (seq![v] + rest) == vals@ + rest);
                        },
                        Err(err) => {},
                    }
                }
                p = e;
            },
        }
    }
    proof {
        assert(vals@ + Seq::<u64>::empty() == vals@);
    }
    Ok(
        CpuStat {
            user: vals[0],
            nice: vals[1],
            system: vals[2],
            idle: vals[3],
            iowait: vals[4],
            irq: vals[5],
            softirq: vals[6],
            steal: vals[7],
        },
    )
}

/// Reads one line: the bytes of `text` from `start` to `end`.
pub fn parse_line(text: &[u8], start: usize, end: usize) -> (r: StatLine)
    requires
        start <= end <= text@.len(),
    ensures
        r == stat_line(text@.subrange(start as int, end as int)),
{
    let ghost line = text@.subrange(start as int, end as int);
    let ks: usize = find_field_start(text, start, end, Ghost(start as int));
    if ks >= end {
        return StatLine::Bad(ParseError::NoKey);
    }
    let ke: usize = find_field_end(text, ks, end, Ghost(start as int));
    let ghost key = line.subrange(ks - start, ke - start);
    proof {
        assert(key == text@.subrange(ks as int, ke as int));
    }
    if !(ke - ks >= 3 && text[ks] == 0x63 && text[ks + 1] == 0x70 && text[ks + 2] == 0x75) {
        return StatLine::Stop;
    }
    match parse_counters(text, ke, end, Ghost(start as int)) {
        Err(err) => StatLine::Bad(err),
        Ok(stat) => {
            if ke - ks == 3 {
                StatLine::Total(stat)
            } else {
                proof {
                    assert(key.skip(3) == text@.subrange(ks + 3, ke as int));
                }
                match parse_number(text, ks + 3, ke, usize::MAX as u64) {
                    Some(id) => StatLine::Cpu(id as usize, stat),
                    None => StatLine::Bad(ParseError::BadNumber),
                }
            }
        },
    }
}

impl ProcStat {
    /// Reads the counters out of the text that the kernel writes them as.
    pub fn parse(text: &[u8]) -> (r: Result<ProcStat, ParseError>)
        ensures
            match r {
                Ok(stat) => stat_text(text@) == Ok::<ProcStatView, ParseError>(stat@),
                Err(err) => stat_text(text@) == Err::<ProcStatView, ParseError>(err),
            },
    {
        let n: usize = text.len();
        let mut result = ProcStat { total: CpuStat::zero_stat(), cpus: BTreeMap::new() };
        let mut pos: usize = 0;
        while pos < n
            invariant
                n == text@.len(),
                0 <= pos <= n,
                stat_text(text@) == scan(text@, pos as int, result@),
            decreases n - pos,
        {
            let mut e: usize = pos;
            while e < n && text[e] != 0x0a
                invariant
                    pos <= e <= n,
                    n == text@.len(),
                    line_end(text@, pos as int) == line_end(text@, e as int),
                decreases n - e,
            {
                e += 1;
            }
            match parse_line(text, pos, e) {
                StatLine::Stop => {
                    return Ok(result);
                },
                StatLine::Bad(err) => {
                    return Err(err);
                },
                StatLine::Total(stat) => {
                    result.total = stat;
                },
                StatLine::Cpu(id, stat) => {
                    result.cpus.insert(id, stat);
                },
            }
            if e == n {
                pos = n;
            } else {
                pos = e + 1;
            }
        }
        Ok(result)
    }
}

/// The length of a text without the blanks at its end.
pub open spec fn trimmed_len(s: Seq<u8>) -> int
    decreases s.len(),
{
    if s.len() > 0 && is_space(s.last()) {
        trimmed_len(s.drop_last())
    } else {
        s.len() as int
    }
}

/// The text without the blanks at its start and at its end.
pub open spec fn trimmed(s: Seq<u8>) -> Seq<u8> {
    let end = trimmed_len(s);
    let start = field_start(s.take(end), 0);
    s.subrange(start, end)
}

proof fn lemma_trimmed_len(s: Seq<u8>)
    ensures
        0 <= trimmed_len(s) <= s.len(),
    decreases s.len(),
{
    if s.len() > 0 && is_space(s.last()) {
        lemma_trimmed_len(s.drop_last());
    }
}

/// Reads the ID of a cache out of the text of its file: a number with blanks
/// around it. Text that is no such number is an error, and so not to be taken
/// for a CPU that is offline.
pub fn parse_cache_id(text: &[u8]) -> (r: Result<usize, ParseError>)
    ensures
        r == match number(trimmed(text@), usize::MAX as u64) {
            Some(id) => Ok::<usize, ParseError>(id as usize),
            None => Err::<usize, ParseError>(ParseError::BadNumber),
        },
{
    let mut end: usize = text.len();
    assert(text@.take(end as int) == text@);
    while end > 0 && (text[end - 1] == 0x20 || (0x09 <= text[end - 1] && text[end - 1] <= 0x0d))
        invariant
            0 <= end <= text@.len(),
            trimmed_len(text@) == trimmed_len(text@.take(end as int)),
        decreases end,
    {
        proof {
            assert(text@.take(end as int).drop_last() == text@.take(end - 1));
        }
        end -= 1;
    }
    proof {
        if end > 0 {
            assert(text@.take(end as int).last() == text@[end - 1]);
        }
        assert(text@.subrange(0, end as int) == text@.take(end as int));
        lemma_field_bounds(text@.take(end as int), 0);
    }
    let start: usize = find_field_start(text, 0, end, Ghost(0));
    match parse_number(text, start, end, usize::MAX as u64) {
        Some(id) => Ok(id as usize),
        None => Err(ParseError::BadNumber),
    }
}

} // verus!
