use scx_atropos::cpu_stat::{CpuStat, ProcStat};
use scx_atropos::error::ParseError;
use scx_atropos::proc_stat::parse_cache_id;

const TEXT: &str = "cpu  10 20 30 40 50 60 70 80 90 100\n\
cpu0 1 2 3 4 5 6 7 8 0 0\n\
cpu3 11 12 13 14 15 16 17 18 0 0\n\
intr 12345 0 9\n\
cpu7 1 1 1 1 1 1 1 1\n";

fn stat(v: [u64; 8]) -> CpuStat {
    CpuStat {
        user: v[0], nice: v[1], system: v[2], idle: v[3],
        iowait: v[4], irq: v[5], softirq: v[6], steal: v[7],
    }
}

#[test]
fn reads_total_and_cpus_up_to_the_first_other_line() {
    let ps = ProcStat::parse(TEXT.as_bytes()).unwrap();
    assert_eq!(ps.total, stat([10, 20, 30, 40, 50, 60, 70, 80]));
    assert_eq!(ps.cpus.len(), 2);
    assert_eq!(ps.cpus[&0], stat([1, 2, 3, 4, 5, 6, 7, 8]));
    assert_eq!(ps.cpus[&3], stat([11, 12, 13, 14, 15, 16, 17, 18]));
}

#[test]
fn reads_nothing_out_of_nothing() {
    let ps = ProcStat::parse(b"").unwrap();
    assert_eq!(ps.total, stat([0; 8]));
    assert!(ps.cpus.is_empty());
    let ps = ProcStat::parse(b"btime 5\ncpu 1 2 3 4 5 6 7 8\n").unwrap();
    assert_eq!(ps.total, stat([0; 8]));
}

#[test]
fn last_line_needs_no_line_feed_and_blanks_do_not_matter() {
    let ps = ProcStat::parse(b"  cpu12\t+7   0 0 0\t0 0 0 18446744073709551615\r").unwrap();
    assert_eq!(ps.cpus[&12], stat([7, 0, 0, 0, 0, 0, 0, u64::MAX]));
    let ps = ProcStat::parse(b"cpu1 1 1 1 1 1 1 1 1\ncpu1 2 2 2 2 2 2 2 2\ncpu001 3 3 3 3 3 3 3 3").unwrap();
    assert_eq!(ps.cpus.len(), 1);
    assert_eq!(ps.cpus[&1], stat([3; 8]));
}

#[test]
fn parse_errors() {
    let err = |text: &str| ProcStat::parse(text.as_bytes()).err();
    assert_eq!(err("cpu 1 2 3 4 5 6 7\n"), Some(ParseError::MissingField));
    assert_eq!(err("cpu0\n"), Some(ParseError::MissingField));
    assert_eq!(err("cpu 1 2 3 x 5 6 7 8\n"), Some(ParseError::BadNumber));
    assert_eq!(err("cpu 1 2 3 -4 5 6 7 8\n"), Some(ParseError::BadNumber));
    assert_eq!(err("cpu 1 2 3 + 5 6 7 8\n"), Some(ParseError::BadNumber));
    assert_eq!(err("cpu 1 2 3 4 5 6 7 18446744073709551616\n"), Some(ParseError::BadNumber));
    assert_eq!(err("cpux 1 2 3 4 5 6 7 8\n"), Some(ParseError::BadNumber));
    assert_eq!(err("cpu 1 2 3 4 5 6 7 8\n\ncpu0 1 2 3 4 5 6 7 8\n"), Some(ParseError::NoKey));
    assert_eq!(err("cpu 1 2 3 4 5 6 7 8\n \t\n"), Some(ParseError::NoKey));
    // the number is read before the CPU: the first thing wrong is reported
    assert_eq!(err("cpux 1 2\n"), Some(ParseError::MissingField));
}

#[test]
fn cache_id() {
    assert_eq!(parse_cache_id(b"7\n"), Ok(7));
    assert_eq!(parse_cache_id(b" \t 012 \r\n"), Ok(12));
    assert_eq!(parse_cache_id(b"+3"), Ok(3));
    for bad in [&b""[..], b"\n", b"1 2", b"-1", b"0x7", b"99999999999999999999999"] {
        assert_eq!(parse_cache_id(bad), Err(ParseError::BadNumber));
    }
}
