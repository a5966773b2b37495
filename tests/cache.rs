use cda_cache_sim::cache::{parse_record, select_victim, Cache, Line, TraceError, TraceErrorKind};
use cda_cache_sim::user_input::{ReplacementPolicy, UserInput};

fn records(lines: &[&str]) -> Vec<String> {
    lines.iter().map(|s| s.to_string()).collect()
}

fn two_way(policy: &str) -> UserInput {
    // 8 one-byte lines, 2 per set: 4 sets, set index in the two low bits
    UserInput::set_associative(3, 0, 1, policy.into()).unwrap()
}

#[test]
fn lru_evicts_least_recently_used() {
    let ui = two_way("l");
    let mut c = Cache::new(&ui);
    assert!(!c.write(0, 1, 4));
    assert!(!c.write(0, 2, 8));
    assert!(c.write(0, 1, 4));
    assert!(!c.write(0, 3, 12));
    assert!(c.contains(0, 1));
    assert!(!c.contains(0, 2));
    assert!(c.contains(0, 3));
}

#[test]
fn fifo_evicts_first_inserted() {
    let ui = two_way("f");
    let mut c = Cache::new(&ui);
    assert!(!c.write(0, 1, 4));
    assert!(!c.write(0, 2, 8));
    assert!(c.write(0, 1, 4));
    assert!(!c.write(0, 3, 12));
    assert!(!c.contains(0, 1));
    assert!(c.contains(0, 2));
    assert!(c.contains(0, 3));
}

#[test]
fn lru_and_fifo_diverge_on_a_trace() {
    let trace = records(&["l 0x00000004", "l 0x00000008", "s 0x00000004", "l 0x0000000C", "l 0x00000008"]);
    let mut lru = Cache::new(&two_way("l"));
    let r = lru.simulate_trace(&trace).unwrap();
    assert_eq!(r.hits, 1);
    assert_eq!(r.accesses, 5);
    let mut fifo = Cache::new(&two_way("f"));
    let r = fifo.simulate_trace(&trace).unwrap();
    assert_eq!(r.hits, 2);
    assert_eq!(r.hit_history, vec![0, 0, 1, 1, 2]);
}

#[test]
fn empty_space_and_capacity() {
    let ui = two_way("l");
    let mut c = Cache::new(&ui);
    assert!(c.empty_space(2));
    c.write(2, 1, 0);
    assert!(c.empty_space(2));
    c.write(2, 2, 0);
    assert!(!c.empty_space(2));
    c.write(2, 3, 0);
    assert!(!c.empty_space(2));
    assert!(c.empty_space(1));
}

#[test]
fn counts_and_histories() {
    let ui = UserInput::new(5, 2, "dm".into(), "l".into()).unwrap();
    let mut c = Cache::new(&ui);
    let trace = records(&["l 0x1FFFFF50", "s 0x1FFFFF50", "  L 0X1fffff53  ", "l 0x1FFFFF70", "l 0x1FFFFF50"]);
    let r = c.simulate_trace(&trace).unwrap();
    assert_eq!(r.accesses, 5);
    assert_eq!(r.hits, 2);
    assert_eq!(r.accesses_history, vec![1, 2, 3, 4, 5]);
    assert_eq!(r.hit_history, vec![0, 1, 2, 2, 2]);
}

#[test]
fn empty_trace() {
    let mut c = Cache::new(&two_way("l"));
    let r = c.simulate_trace(&Vec::new()).unwrap();
    assert_eq!(r.hits, 0);
    assert_eq!(r.accesses, 0);
    assert!(r.hit_history.is_empty());
    assert!(r.accesses_history.is_empty());
}

#[test]
fn replay_is_deterministic() {
    let ui = UserInput::set_associative(6, 2, 2, "l".into()).unwrap();
    let trace = records(&[
        "l 0x00000010", "s 0x00000110", "l 0x00000210", "l 0x00000010", "s 0x00000310",
        "l 0x00000410", "l 0x00000110", "l 0x00000010",
    ]);
    let mut a = Cache::new(&ui);
    let mut b = Cache::new(&ui);
    let ra = a.simulate_trace(&trace).unwrap();
    let rb = b.simulate_trace(&trace).unwrap();
    assert_eq!(ra.hits, rb.hits);
    assert_eq!(ra.accesses, rb.accesses);
    assert_eq!(ra.hit_history, rb.hit_history);
    assert_eq!(ra.accesses_history, rb.accesses_history);
}

#[test]
fn trace_errors_name_the_record() {
    let ui = two_way("l");
    let cases = [
        ("x 0x00000004", TraceErrorKind::UnrecognizedOperation),
        ("ls 0x00000004", TraceErrorKind::UnrecognizedOperation),
        ("l 00000004", TraceErrorKind::Prefix),
        ("l", TraceErrorKind::Prefix),
        ("l 0x0000000g", TraceErrorKind::Format),
        ("l 0x123", TraceErrorKind::LengthMismatch),
        ("l 0x000000004", TraceErrorKind::LengthMismatch),
    ];
    for (rec, kind) in cases {
        let mut c = Cache::new(&ui);
        let trace = records(&["l 0x00000004", rec]);
        assert_eq!(c.simulate_trace(&trace).unwrap_err(), TraceError { record: 1, kind });
        // nothing was accessed
        assert!(!c.contains(1, 1));
        assert!(!c.contains(0, 1));
    }
}

#[test]
fn records_decode_to_set_tag_and_address() {
    let ui = UserInput::new(5, 2, "dm".into(), "l".into()).unwrap();
    assert_eq!(parse_record(&ui, "l 0x1FFFFF50"), Ok((4, 0x00FF_FFFA, 0x1FFF_FF50)));
    assert_eq!(parse_record(&ui, " S 0x1fffff50 extra"), Ok((4, 0x00FF_FFFA, 0x1FFF_FF50)));
    let (set, tag, addy) = parse_record(&ui, "l 0x1FFFFF53").unwrap();
    assert_eq!(tag * 32 + set * 4 + 3, addy);
    let fa = UserInput::new(5, 2, "fa".into(), "l".into()).unwrap();
    assert_eq!(parse_record(&fa, "l 0x1FFFFF50"), Ok((0, 0x07FF_FFD4, 0x1FFF_FF50)));
}

#[test]
fn victim_ties_break_on_the_lower_tag() {
    let line = |tag: u32, birthday: u64, last_access: u64| Line { tag, addy: 0, last_access, birthday, num_accesses: 0 };
    let lines = vec![line(9, 1, 5), line(3, 2, 5), line(7, 0, 6)];
    assert_eq!(select_victim(&lines, ReplacementPolicy::LRU), 1);
    assert_eq!(select_victim(&lines, ReplacementPolicy::FIFO), 2);
}

#[test]
fn records_tolerate_unicode_whitespace_and_case() {
    let plain = records(&["l 0x00000004", "s 0x00000008", "l 0x00000004"]);
    let dressed = records(&["\u{a0}l 0x00000004", "S 0X00000008\u{3000}", "\u{2003} L 0x00000004\u{85}"]);
    let rp = Cache::new(&two_way("l")).simulate_trace(&plain).unwrap();
    let rd = Cache::new(&two_way("l")).simulate_trace(&dressed).unwrap();
    assert_eq!(rp.hits, 1);
    assert_eq!(rd.hits, rp.hits);
    assert_eq!(rd.accesses, rp.accesses);
    assert_eq!(rd.hit_history, rp.hit_history);
    assert_eq!(rd.accesses_history, rp.accesses_history);
}
