//! The cache engine: sets of resident lines keyed by tag, bounded by the
//! associativity, with LRU or FIFO replacement driven by a logical clock, and the
//! replay of a trace of load/store records.

use std::collections::HashMap;
use vstd::prelude::*;
use vstd::arithmetic::power2::{lemma_pow2_pos, lemma2_to64, lemma_pow2_strictly_increases};
use crate::address::{DecodeError, decode_hex, bits_value, decode_hex_address, binary_str_value, lemma_bits_value_bound};
use crate::text::{trim, first_blank, word_is, trim_str, first_blank_index, word_matches};
use crate::user_input::{UserInput, ReplacementPolicy};

verus! {

/// One resident memory block. Ticks are readings of the cache's logical clock.
#[derive(Debug, PartialEq, Eq, Clone, Copy, Structural)]
pub struct Line {
    /// The tag that the line is found by within its set.
    pub tag: u32,
    /// The full address whose access brought the line in.
    pub addy: u32,
    /// When the line was last touched.
    pub last_access: u64,
    /// When the line was brought in.
    pub birthday: u64,
    /// How many hits the line has had.
    pub num_accesses: u64,
}

/// The line that a miss on `tag` brings in at tick `now`.
pub open spec fn fresh_line(tag: u32, addy: u32, now: u64) -> Line {
    Line { tag, addy, last_access: now, birthday: now, num_accesses: 0 }
}

/// A resident line after a hit at tick `now`.
pub open spec fn touched(l: Line, now: u64) -> Line {
    Line { last_access: now, num_accesses: (l.num_accesses + 1) as u64, ..l }
}

/// The tick by which a policy ranks lines for eviction.
pub open spec fn age(l: Line, p: ReplacementPolicy) -> u64 {
    match p {
        ReplacementPolicy::LRU => l.last_access,
        ReplacementPolicy::FIFO => l.birthday,
    }
}

/// `a` is evicted before `b`: it is older by the policy's tick, or as old with a lower tag.
pub open spec fn goes_before(a: Line, b: Line, p: ReplacementPolicy) -> bool {
    age(a, p) < age(b, p) || (age(a, p) == age(b, p) && a.tag < b.tag)
}

/// The position of the line that a full set gives up: the first of the lines
/// that no other line goes before.
pub open spec fn victim(s: Seq<Line>, p: ReplacementPolicy) -> int
    decreases s.len(),
{
    if s.len() <= 1 {
        0
    } else {
        let j = victim(s.drop_last(), p);
        if goes_before(s.last(), s[j], p) {
            s.len() - 1
        } else {
            j
        }
    }
}

pub open spec fn has_tag(s: Seq<Line>, tag: u32) -> bool {
    exists|i: int| 0 <= i < s.len() && s[i].tag == tag
}

/// One access to a set that holds at most `cap` lines: the set afterwards, and
/// whether it was a hit.
pub open spec fn access_set(
    s: Seq<Line>,
    tag: u32,
    addy: u32,
    now: u64,
    cap: nat,
    p: ReplacementPolicy,
) -> (Seq<Line>, bool) {
    if has_tag(s, tag) {
        let i = choose|i: int| 0 <= i < s.len() && s[i].tag == tag;
        (s.update(i, touched(s[i], now)), true)
    } else if s.len() < cap {
        (s.push(fresh_line(tag, addy, now)), false)
    } else {
        (s.remove(victim(s, p)).push(fresh_line(tag, addy, now)), false)
    }
}

/// The lines of set `set`; a set not yet referenced is empty.
pub open spec fn set_lines(sets: Map<u32, Seq<Line>>, set: u32) -> Seq<Line> {
    if sets.contains_key(set) {
        sets[set]
    } else {
        Seq::empty()
    }
}

/// One access to the whole cache: all sets afterwards, and whether it was a hit.
pub open spec fn access_step(
    sets: Map<u32, Seq<Line>>,
    set: u32,
    tag: u32,
    addy: u32,
    now: u64,
    cap: nat,
    p: ReplacementPolicy,
) -> (Map<u32, Seq<Line>>, bool) {
    let (s, hit) = access_set(set_lines(sets, set), tag, addy, now, cap, p);
    (sets.insert(set, s), hit)
}

/// A set within its capacity, with distinct tags and ticks before `clock`.
pub open spec fn set_wf(s: Seq<Line>, cap: nat, clock: nat) -> bool {
    &&& s.len() <= cap
    &&& forall|i: int, j: int| 0 <= i < j < s.len() ==> s[i].tag != s[j].tag
    &&& forall|i: int|
        0 <= i < s.len() ==> {
            &&& s[i].birthday <= s[i].last_access
            &&& s[i].last_access < clock
            &&& s[i].num_accesses <= s[i].last_access
        }
}

/// Replays accesses, each `(set, tag, address)`, from the given sets and clock:
/// the sets and clock afterwards, and the hit or miss of each access.
pub open spec fn run(
    cfg: UserInput,
    sets: Map<u32, Seq<Line>>,
    clock: nat,
    accesses: Seq<(u32, u32, u32)>,
) -> (Map<u32, Seq<Line>>, nat, Seq<bool>)
    decreases accesses.len(),
{
    if accesses.len() == 0 {
        (sets, clock, Seq::empty())
    } else {
        let (s, c, h) = run(cfg, sets, clock, accesses.drop_last());
        let a = accesses.last();
        let (s2, hit) = access_step(s, a.0, a.1, a.2, c as u64, cfg.spec_lines_per_set(), cfg.policy());
        (s2, c + 1, h.push(hit))
    }
}

/// The number of hits among outcomes.
pub open spec fn count_hits(h: Seq<bool>) -> nat
    decreases h.len(),
{
    if h.len() == 0 {
        0
    } else {
        count_hits(h.drop_last()) + (if h.last() { 1nat } else { 0nat })
    }
}

/// Why a trace record was refused.
#[derive(Debug, PartialEq, Eq, Clone, Copy, Structural)]
pub enum TraceErrorKind {
    /// A character of the address is not a hexadecimal digit.
    Format,
    /// The address does not start with `0x`.
    Prefix,
    /// The address is not 32 bits long.
    LengthMismatch,
    /// The operation is neither `l` nor `s`.
    UnrecognizedOperation,
}

/// A refused trace record: its position (from 0) and what was wrong with it.
#[derive(Debug, PartialEq, Eq, Clone, Copy, Structural)]
pub struct TraceError {
    pub record: usize,
    pub kind: TraceErrorKind,
}

pub open spec fn kind_of(e: DecodeError) -> TraceErrorKind {
    match e {
        DecodeError::Format => TraceErrorKind::Format,
        DecodeError::Prefix => TraceErrorKind::Prefix,
        DecodeError::LengthMismatch => TraceErrorKind::LengthMismatch,
    }
}

/// The operation of a record with surrounding whitespace removed: up to its first blank.
pub open spec fn record_op(t: Seq<char>) -> Seq<char> {
    t.subrange(0, first_blank(t) as int)
}

/// The address of a record with surrounding whitespace removed: between its first
/// and second blank, or empty when it has no blank.
pub open spec fn record_address(t: Seq<char>) -> Seq<char> {
    let p = first_blank(t);
    let rest = if p < t.len() {
        t.subrange(p + 1int, t.len() as int)
    } else {
        Seq::empty()
    };
    rest.subrange(0, first_blank(rest) as int)
}

/// What a record `<op> <address>` asks for, as `(set, tag, address)`.
pub open spec fn decode_record(cfg: UserInput, rec: Seq<char>) -> Result<
    (u32, u32, u32),
    TraceErrorKind,
> {
    let t = trim(rec);
    let op = record_op(t);
    if !(word_is(op, "l"@, "L"@) || word_is(op, "s"@, "S"@)) {
        Err(TraceErrorKind::UnrecognizedOperation)
    } else {
        match decode_hex(record_address(t)) {
            Err(e) => Err(kind_of(e)),
            Ok(bits) => if bits.len() != 32 {
                Err(TraceErrorKind::LengthMismatch)
            } else {
                let tb = cfg.tag_bits() as int;
                let se = (cfg.tag_bits() + cfg.set_bits()) as int;
                Ok(
                    (
                        bits_value(bits.subrange(tb, se)) as u32,
                        bits_value(bits.subrange(0, tb)) as u32,
                        bits_value(bits) as u32,
                    ),
                )
            },
        }
    }
}

/// The accesses that a trace asks for, or the first record that is refused.
pub open spec fn decode_trace(cfg: UserInput, records: Seq<String>) -> Result<
    Seq<(u32, u32, u32)>,
    TraceError,
>
    decreases records.len(),
{
    if records.len() == 0 {
        Ok(Seq::empty())
    } else {
        match decode_trace(cfg, records.drop_last()) {
            Err(e) => Err(e),
            Ok(accesses) => match decode_record(cfg, records.last()@) {
                Err(kind) => Err(TraceError { record: (records.len() - 1) as usize, kind }),
                Ok(a) => Ok(accesses.push(a)),
            },
        }
    }
}

/// Counts of a replay, with the running totals after each record.
#[derive(Debug)]
pub struct SimResults {
    pub hits: u32,
    pub accesses: u32,
    /// `hit_history[i]`: hits among the first `i + 1` records.
    pub hit_history: Vec<u32>,
    /// `accesses_history[i]`: `i + 1`.
    pub accesses_history: Vec<u32>,
}

/// `r` reports the outcomes `h`, one per record.
pub open spec fn reports(r: SimResults, h: Seq<bool>) -> bool {
    &&& r.accesses == h.len()
    &&& r.hits == count_hits(h)
    &&& r.hit_history@.len() == h.len()
    &&& r.accesses_history@.len() == h.len()
    &&& forall|i: int| 0 <= i < h.len() ==> r.hit_history@[i] == count_hits(h.take(i + 1))
    &&& forall|i: int| 0 <= i < h.len() ==> r.accesses_history@[i] == i + 1
}

/// A cache under simulation: its configuration, the sets referenced so far, and
/// a logical clock that every access advances by one.
#[derive(Debug)]
pub struct Cache {
    cache: HashMap<u32, Vec<Line>>,
    context: UserInput,
    clock: u64,
}

impl Cache {
    /// The lines of each set referenced so far, by set index.
    pub closed spec fn sets(&self) -> Map<u32, Seq<Line>> {
        self.cache@.map_values(|v: Vec<Line>| v@)
    }

    pub closed spec fn config(&self) -> UserInput {
        self.context
    }

    /// The tick that the next access takes.
    pub closed spec fn now(&self) -> nat {
        self.clock as nat
    }

    pub open spec fn wf(&self) -> bool {
        &&& self.config().wf()
        &&& forall|k: u32| #[trigger]
            self.sets().contains_key(k) ==> k < self.config().spec_num_sets() && set_wf(
                self.sets()[k],
                self.config().spec_lines_per_set(),
                self.now(),
            )
    }

    /// An empty cache of the given configuration.
    pub fn new(user_input: &UserInput) -> (r: Cache)
        requires
            user_input.wf(),
        ensures
            r.wf(),
            r.config() == *user_input,
            r.sets() == Map::<u32, Seq<Line>>::empty(),
            r.now() == 0,
    {
        let r = Cache { cache: HashMap::new(), context: *user_input, clock: 0 };
        assert(r.sets() =~= Map::<u32, Seq<Line>>::empty());
        r
    }

    /// Whether set `set` holds a line tagged `tag`.
    pub fn contains(&self, set: u32, tag: u32) -> (r: bool)
        ensures
            r == has_tag(set_lines(self.sets(), set), tag),
    {
        match self.cache.get(&set) {
            Some(lines) => find_tag(lines, tag).is_some(),
            None => false,
        }
    }

    /// Whether set `set` has room for another line.
    pub fn empty_space(&self, set: u32) -> (r: bool)
        requires
            self.wf(),
        ensures
            r == (set_lines(self.sets(), set).len() < self.config().spec_lines_per_set()),
    {
        let cap = self.context.lines_per_set();
        match self.cache.get(&set) {
            Some(lines) => lines.len() < cap as usize,
            None => 0 < cap,
        }
    }

    /// Accesses the line `tag` of set `set` for `addy`, at the current tick: a hit
    /// refreshes the line; a miss brings it in, evicting the policy's victim from a
    /// full set. Returns whether it was a hit.
    pub fn write(&mut self, set: u32, tag: u32, addy: u32) -> (r: bool)
        requires
            old(self).wf(),
            set < old(self).config().spec_num_sets(),
            old(self).now() < u64::MAX,
        ensures
            final(self).wf(),
            final(self).config() == old(self).config(),
            final(self).now() == old(self).now() + 1,
            (final(self).sets(), r) == access_step(
                old(self).sets(),
                set,
                tag,
                addy,
                old(self).now() as u64,
                old(self).config().spec_lines_per_set(),
                old(self).config().policy(),
            ),
    {
        let now = self.clock;
        let cap = self.context.lines_per_set();
        let policy = self.context.replacement_policy();
        let ghost before = self.sets();
        let mut lines = match self.cache.remove(&set) {
            Some(v) => v,
            None => Vec::new(),
        };
        assert(lines@ == set_lines(before, set));
        proof {
            lemma_pow2_pos(self.context.ways_exp());
        }
        let hit = access_lines(&mut lines, tag, addy, now, cap, policy);
        self.cache.insert(set, lines);
        self.clock = now + 1;
        assert(self.sets() =~= before.insert(set, lines@));
        proof {
            assert forall|k: u32| #[trigger] self.sets().contains_key(k) implies k
                < self.config().spec_num_sets() && set_wf(
                self.sets()[k],
                self.config().spec_lines_per_set(),
                self.now(),
            ) by {
                if k != set {
                    let t = before[k];
                    assert(set_wf(t, cap as nat, now as nat));
                }
            }
        }
        hit
    }
}

/// The position of the line tagged `tag`, if any.
fn find_tag(lines: &Vec<Line>, tag: u32) -> (r: Option<usize>)
    ensures
        match r {
            Some(i) => i < lines@.len() && lines@[i as int].tag == tag,
            None => !has_tag(lines@, tag),
        },
{
    let mut i: usize = 0;
    while i < lines.len()
        invariant
            i <= lines@.len(),
            forall|j: int| 0 <= j < i ==> lines@[j].tag != tag,
        decreases lines@.len() - i,
    {
        if lines[i].tag == tag {
            return Some(i);
        }
        i = i + 1;
    }
    None
}

fn goes_before_exec(a: &Line, b: &Line, p: ReplacementPolicy) -> (r: bool)
    ensures
        r == goes_before(*a, *b, p),
{
    let (ka, kb) = match p {
        ReplacementPolicy::LRU => (a.last_access, b.last_access),
        ReplacementPolicy::FIFO => (a.birthday, b.birthday),
    };
    ka < kb || (ka == kb && a.tag < b.tag)
}

/// The position of the line that the policy evicts from a full set.
pub fn select_victim(lines: &Vec<Line>, p: ReplacementPolicy) -> (r: usize)
    requires
        lines@.len() > 0,
    ensures
        r == victim(lines@, p),
        r < lines@.len(),
{
    let mut best: usize = 0;
    let mut i: usize = 1;
    proof {
        lemma_victim_in_range(lines@.take(1), p);
    }
    while i < lines.len()
        invariant
            1 <= i <= lines@.len(),
            best == victim(lines@.take(i as int), p),
            best < i,
        decreases lines@.len() - i,
    {
        let ghost t = lines@.take(i + 1);
        assert(t.drop_last() =~= lines@.take(i as int));
        assert(t[best as int] == lines@[best as int]);
        if goes_before_exec(&lines[i], &lines[best], p) {
            best = i;
        }
        i = i + 1;
    }
    assert(lines@.take(lines@.len() as int) =~= lines@);
    best
}

/// The line that a full set gives up is the oldest by the policy's tick: LRU's
/// least recently touched, FIFO's first inserted; among equally old lines, the
/// one with the lowest tag.
pub proof fn lemma_victim_is_oldest(s: Seq<Line>, p: ReplacementPolicy)
    requires
        s.len() > 0,
    ensures
        0 <= victim(s, p) < s.len(),
        forall|j: int| 0 <= j < s.len() ==> !goes_before(#[trigger] s[j], s[victim(s, p)], p),
    decreases s.len(),
{
    if s.len() > 1 {
        let t = s.drop_last();
        lemma_victim_is_oldest(t, p);
        let v = victim(t, p);
        assert(s[v] == t[v]);
        assert forall|j: int| 0 <= j < s.len() implies !goes_before(#[trigger] s[j], s[victim(s, p)], p) by {
            if j < s.len() - 1 {
                assert(s[j] == t[j]);
            }
        }
    }
}

proof fn lemma_victim_in_range(s: Seq<Line>, p: ReplacementPolicy)
    requires
        s.len() > 0,
    ensures
        0 <= victim(s, p) < s.len(),
    decreases s.len(),
{
    if s.len() > 1 {
        lemma_victim_in_range(s.drop_last(), p);
    }
}

/// One access to a set of at most `cap` lines, at tick `now`.
fn access_lines(
    lines: &mut Vec<Line>,
    tag: u32,
    addy: u32,
    now: u64,
    cap: u32,
    p: ReplacementPolicy,
) -> (hit: bool)
    requires
        set_wf(old(lines)@, cap as nat, now as nat),
        cap >= 1,
        now < u64::MAX,
    ensures
        (final(lines)@, hit) == access_set(old(lines)@, tag, addy, now, cap as nat, p),
        set_wf(final(lines)@, cap as nat, now as nat + 1),
{
    let ghost s = lines@;
    match find_tag(lines, tag) {
        Some(i) => {
            let l = lines[i];
            let nl = Line { last_access: now, num_accesses: l.num_accesses + 1, ..l };
            lines.set(i, nl);
            proof {
                let c = choose|j: int| 0 <= j < s.len() && s[j].tag == tag;
                assert(0 <= c < s.len() && s[c].tag == tag);
                assert(c == i as int);
                assert(nl == touched(s[i as int], now));
            }
            true
        },
        None => {
            if lines.len() >= cap as usize {
                let v = select_victim(lines, p);
                lines.remove(v);
            }
            let ghost mid = lines@;
            lines.push(Line { tag, addy, last_access: now, birthday: now, num_accesses: 0 });
            proof {
                assert forall|i: int, j: int|
                    0 <= i < j < lines@.len() implies lines@[i].tag != lines@[j].tag by {
                    if j == lines@.len() - 1 {
                        assert(mid.contains(lines@[i]));
                    }
                }
            }
            false
        },
    }
}

/// Reads one trace record `<op> <address>` as `(set, tag, address)`.
pub fn parse_record(cfg: &UserInput, rec: &str) -> (r: Result<(u32, u32, u32), TraceErrorKind>)
    requires
        cfg.wf(),
    ensures
        r == decode_record(*cfg, rec@),
        r is Ok ==> (r->Ok_0).0 < cfg.spec_num_sets(),
{
    let t = trim_str(rec);
    let n = t.unicode_len();
    let p = first_blank_index(t);
    let op = t.substring_char(0, p);
    let rest = if p < n {
        t.substring_char(p + 1, n)
    } else {
        t.substring_char(n, n)
    };
    assert(rest@ =~= (if p < n {
        t@.subrange(p + 1int, n as int)
    } else {
        Seq::<char>::empty()
    }));
    let q = first_blank_index(rest);
    let address = rest.substring_char(0, q);
    if !(word_matches(op, "l", "L") || word_matches(op, "s", "S")) {
        return Err(TraceErrorKind::UnrecognizedOperation);
    }
    let bits = match decode_hex_address(address) {
        Ok(b) => b,
        Err(e) => {
            return Err(
                match e {
                    DecodeError::Format => TraceErrorKind::Format,
                    DecodeError::Prefix => TraceErrorKind::Prefix,
                    DecodeError::LengthMismatch => TraceErrorKind::LengthMismatch,
                },
            );
        },
    };
    match cfg.break_down_binary_address(&bits) {
        Err(_) => Err(TraceErrorKind::LengthMismatch),
        Ok((tag, set, _offset)) => {
            proof {
                lemma_bits_value_bound(set@);
            }
            let set_value = binary_str_value(set);
            let tag_value = binary_str_value(tag);
            let addy = binary_str_value(bits.as_str());
            Ok((set_value, tag_value, addy))
        },
    }
}

impl Cache {
    /// Replays a trace, one record per entry, against this cache. Every record is
    /// read before the first access: a refused record leaves the cache untouched
    /// and names the first such record. Otherwise the records are accessed in
    /// order and the counts are returned.
    pub fn simulate_trace(&mut self, records: &Vec<String>) -> (r: Result<SimResults, TraceError>)
        requires
            old(self).wf(),
            old(self).now() + records@.len() < u64::MAX,
            records@.len() <= u32::MAX,
        ensures
            final(self).wf(),
            final(self).config() == old(self).config(),
            match decode_trace(old(self).config(), records@) {
                Err(e) => r == Err::<SimResults, TraceError>(e) && *final(self) == *old(self),
                Ok(accesses) => {
                    let (sets, clock, outcomes) = run(
                        old(self).config(),
                        old(self).sets(),
                        old(self).now(),
                        accesses,
                    );
                    &&& r is Ok
                    &&& reports(r->Ok_0, outcomes)
                    &&& final(self).sets() == sets
                    &&& final(self).now() == clock
                },
            },
            r is Ok ==> forall|i: int, j: int|
                0 <= i <= j < (r->Ok_0).hit_history@.len() ==> (r->Ok_0).hit_history@[i]
                    <= (r->Ok_0).hit_history@[j],
    {
        let n = records.len();
        let mut accesses: Vec<(u32, u32, u32)> = Vec::new();
        let mut i: usize = 0;
        while i < n
            invariant
                n == records@.len(),
                i <= n,
                accesses@.len() == i,
                self.wf(),
                decode_trace(self.config(), records@.take(i as int)) == Ok::<
                    Seq<(u32, u32, u32)>,
                    TraceError,
                >(accesses@),
                forall|j: int| 0 <= j < accesses@.len() ==> #[trigger] accesses@[j].0 < self.config().spec_num_sets(),
            decreases n - i,
        {
            let ghost t = records@.take(i + 1);
            assert(t.drop_last() =~= records@.take(i as int));
            assert(t.last() == records@[i as int]);
            match parse_record(&self.context, records[i].as_str()) {
                Err(kind) => {
                    proof {
                        lemma_decode_trace_error_sticks(self.config(), records@, i + 1);
                    }
                    return Err(TraceError { record: i, kind });
                },
                Ok(a) => {
                    accesses.push(a);
                },
            }
            i = i + 1;
        }
        assert(records@.take(n as int) =~= records@);
        let ghost sets0 = self.sets();
        let ghost clock0 = self.now();
        let mut hits: u32 = 0;
        let mut hit_history: Vec<u32> = Vec::new();
        let mut accesses_history: Vec<u32> = Vec::new();
        let mut k: usize = 0;
        while k < n
            invariant
                n == records@.len(),
                n == accesses@.len(),
                n <= u32::MAX,
                clock0 + n < u64::MAX,
                k <= n,
                self.wf(),
                self.config() == old(self).config(),
                forall|j: int| 0 <= j < accesses@.len() ==> #[trigger] accesses@[j].0 < self.config().spec_num_sets(),
                ({
                    let (sets, clock, outcomes) = run(self.config(), sets0, clock0, accesses@.take(k as int));
                    &&& self.sets() == sets
                    &&& self.now() == clock
                    &&& clock == clock0 + k
                    &&& hits == count_hits(outcomes)
                    &&& outcomes.len() == k
                    &&& hit_history@.len() == k
                    &&& accesses_history@.len() == k
                    &&& forall|j: int| 0 <= j < k ==> hit_history@[j] == count_hits(outcomes.take(j + 1))
                    &&& forall|j: int| 0 <= j < k ==> accesses_history@[j] == j + 1
                }),
                hits <= k,
                forall|a: int, b: int| 0 <= a <= b < hit_history@.len() ==> hit_history@[a] <= hit_history@[b],
                forall|j: int| 0 <= j < hit_history@.len() ==> hit_history@[j] <= hits,
            decreases n - k,
        {
            let ghost pre = accesses@.take(k as int);
            let ghost t = accesses@.take(k + 1);
            assert(t.drop_last() =~= pre);
            let ghost old_outcomes = run(self.config(), sets0, clock0, pre).2;
            let (set, tag, addy) = accesses[k];
            let hit = self.write(set, tag, addy);
            if hit {
                hits = hits + 1;
            }
            hit_history.push(hits);
            accesses_history.push((k + 1) as u32);
            proof {
                let outcomes = run(self.config(), sets0, clock0, t).2;
                assert(outcomes == old_outcomes.push(hit));
                assert(outcomes.drop_last() =~= old_outcomes);
                assert forall|j: int| 0 <= j < k + 1 implies hit_history@[j] == count_hits(outcomes.take(j + 1)) by {
                    if j < k {
                        assert(outcomes.take(j + 1) =~= old_outcomes.take(j + 1));
                    } else {
                        assert(outcomes.take(j + 1) =~= outcomes);
                    }
                }
            }
            k = k + 1;
        }
        assert(accesses@.take(n as int) =~= accesses@);
        Ok(SimResults { hits, accesses: n as u32, hit_history, accesses_history })
    }
}

proof fn lemma_decode_trace_error_sticks(cfg: UserInput, records: Seq<String>, i: int)
    requires
        0 < i <= records.len(),
        decode_trace(cfg, records.take(i)) is Err,
    ensures
        decode_trace(cfg, records) == decode_trace(cfg, records.take(i)),
    decreases records.len(),
{
    if i < records.len() {
        assert(records.drop_last().take(i) =~= records.take(i));
        lemma_decode_trace_error_sticks(cfg, records.drop_last(), i);
    } else {
        assert(records.take(i) =~= records);
    }
}

proof fn lemma_bounded_keys(s: Set<u32>, n: nat)
    requires
        s.finite(),
        n <= 0x1_0000_0000,
        forall|k: u32| s.contains(k) ==> k < n,
    ensures
        s.len() <= n,
    decreases n,
{
    if n == 0 {
        assert(s =~= Set::<u32>::empty());
    } else {
        let top = (n - 1) as u32;
        let t = s.remove(top);
        lemma_bounded_keys(t, (n - 1) as nat);
    }
}

/// However a cache got to a state, no set holds more lines than the associativity
/// allows, and no more sets have been referenced than the geometry has.
pub proof fn lemma_occupancy_bounded(c: Cache)
    requires
        c.wf(),
    ensures
        forall|k: u32| #[trigger]
            c.sets().contains_key(k) ==> c.sets()[k].len() <= c.config().spec_lines_per_set(),
        c.sets().dom().finite(),
        c.sets().dom().len() <= c.config().spec_num_sets(),
{
    assert(c.sets().dom() =~= c.cache@.dom());
    lemma2_to64();
    if c.config().set_bits() < 32 {
        lemma_pow2_strictly_increases(c.config().set_bits(), 32);
    }
    lemma_bounded_keys(c.sets().dom(), c.config().spec_num_sets());
}

/// Replaying one trace on two caches of the same configuration and state, such
/// as two fresh ones, refuses the same record, or ends in the same sets and clock
/// with the same outcome for every record.
pub proof fn lemma_replay_deterministic(a: Cache, b: Cache, records: Seq<String>)
    requires
        a.wf(),
        b.wf(),
        a.config() == b.config(),
        a.sets() == b.sets(),
        a.now() == b.now(),
    ensures
        decode_trace(a.config(), records) == decode_trace(b.config(), records),
        decode_trace(a.config(), records) is Ok ==> run(
            a.config(),
            a.sets(),
            a.now(),
            decode_trace(a.config(), records)->Ok_0,
        ) == run(b.config(), b.sets(), b.now(), decode_trace(b.config(), records)->Ok_0),
{
}

proof fn lemma_access_set_wf(s: Seq<Line>, tag: u32, addy: u32, now: u64, cap: nat, p: ReplacementPolicy)
    requires
        set_wf(s, cap, now as nat),
        cap >= 1,
        now < u64::MAX,
    ensures
        set_wf(access_set(s, tag, addy, now, cap, p).0, cap, now as nat + 1),
{
    let fresh = fresh_line(tag, addy, now);
    if has_tag(s, tag) {
        let i = choose|i: int| 0 <= i < s.len() && s[i].tag == tag;
        let t = s.update(i, touched(s[i], now));
        assert forall|a: int, b: int| 0 <= a < b < t.len() implies t[a].tag != t[b].tag by {
            assert(t[a].tag == s[a].tag && t[b].tag == s[b].tag);
        }
    } else if s.len() < cap {
        let t = s.push(fresh);
        assert forall|a: int, b: int| 0 <= a < b < t.len() implies t[a].tag != t[b].tag by {
            assert(t[a] == s[a]);
            if b < s.len() {
                assert(t[b] == s[b]);
            }
        }
    } else {
        lemma_victim_in_range(s, p);
        let v = victim(s, p);
        let m = s.remove(v);
        assert forall|k: int| 0 <= k < m.len() implies m[k] == (if k < v { s[k] } else { s[k + 1] }) by {}
        let t = m.push(fresh);
        assert forall|a: int, b: int| 0 <= a < b < t.len() implies t[a].tag != t[b].tag by {
            assert(t[a] == m[a]);
            if b < m.len() {
                assert(t[b] == m[b]);
            }
        }
        assert forall|k: int| 0 <= k < t.len() implies {
            &&& t[k].birthday <= t[k].last_access
            &&& t[k].last_access < now as nat + 1
            &&& t[k].num_accesses <= t[k].last_access
        } by {
            if k < m.len() {
                assert(t[k] == m[k]);
            }
        }
    }
}

proof fn lemma_run_keeps_occupancy(
    cfg: UserInput,
    sets: Map<u32, Seq<Line>>,
    clock: nat,
    accesses: Seq<(u32, u32, u32)>,
)
    requires
        cfg.wf(),
        sets.dom().finite(),
        clock + accesses.len() <= u64::MAX,
        forall|k: u32| #[trigger]
            sets.contains_key(k) ==> k < cfg.spec_num_sets() && set_wf(
                sets[k],
                cfg.spec_lines_per_set(),
                clock,
            ),
        forall|j: int| 0 <= j < accesses.len() ==> #[trigger] accesses[j].0 < cfg.spec_num_sets(),
    ensures
        ({
            let (s, c, h) = run(cfg, sets, clock, accesses);
            &&& c == clock + accesses.len()
            &&& h.len() == accesses.len()
            &&& s.dom().finite()
            &&& forall|k: u32| #[trigger]
                s.contains_key(k) ==> k < cfg.spec_num_sets() && set_wf(
                    s[k],
                    cfg.spec_lines_per_set(),
                    c,
                )
        }),
    decreases accesses.len(),
{
    if accesses.len() > 0 {
        let pre = accesses.drop_last();
        assert forall|j: int| 0 <= j < pre.len() implies #[trigger] pre[j].0 < cfg.spec_num_sets() by {
            assert(pre[j] == accesses[j]);
        }
        lemma_run_keeps_occupancy(cfg, sets, clock, pre);
        let (s, c, h) = run(cfg, sets, clock, pre);
        let a = accesses.last();
        assert(a == accesses[accesses.len() - 1]);
        let cap = cfg.spec_lines_per_set();
        lemma_pow2_pos(cfg.ways_exp());
        assert(set_wf(set_lines(s, a.0), cap, c));
        lemma_access_set_wf(set_lines(s, a.0), a.1, a.2, c as u64, cap, cfg.policy());
        let s2 = run(cfg, sets, clock, accesses).0;
        assert forall|k: u32| #[trigger] s2.contains_key(k) implies k < cfg.spec_num_sets() && set_wf(
            s2[k],
            cap,
            c + 1,
        ) by {
            if k != a.0 {
                assert(set_wf(s[k], cap, c));
            }
        }
    }
}

proof fn lemma_decoded_sets_in_range(cfg: UserInput, records: Seq<String>)
    requires
        cfg.wf(),
        decode_trace(cfg, records) is Ok,
    ensures
        decode_trace(cfg, records)->Ok_0.len() == records.len(),
        forall|j: int|
            0 <= j < records.len() ==> #[trigger] (decode_trace(cfg, records)->Ok_0)[j].0
                < cfg.spec_num_sets(),
    decreases records.len(),
{
    if records.len() > 0 {
        let pre = records.drop_last();
        lemma_decoded_sets_in_range(cfg, pre);
        let acc = decode_trace(cfg, records)->Ok_0;
        let prev = decode_trace(cfg, pre)->Ok_0;
        let rec = records.last()@;
        let t = trim(rec);
        let bits = decode_hex(record_address(t))->Ok_0;
        let set_bits = bits.subrange(cfg.tag_bits() as int, (cfg.tag_bits() + cfg.set_bits()) as int);
        lemma_bits_value_bound(set_bits);
        lemma2_to64();
        if cfg.set_bits() < 32 {
            lemma_pow2_strictly_increases(cfg.set_bits(), 32);
        }
        assert forall|j: int| 0 <= j < records.len() implies #[trigger] acc[j].0 < cfg.spec_num_sets() by {
            if j < pre.len() {
                assert(acc[j] == prev[j]);
            }
        }
    }
}

/// However long a valid trace is, replaying it keeps every set within the
/// associativity and references no more sets than the geometry has; the only
/// bound is that the logical clock does not run out.
pub proof fn lemma_trace_keeps_occupancy(c: Cache, records: Seq<String>)
    requires
        c.wf(),
        c.now() + records.len() <= u64::MAX,
        decode_trace(c.config(), records) is Ok,
    ensures
        ({
            let s = run(c.config(), c.sets(), c.now(), decode_trace(c.config(), records)->Ok_0).0;
            &&& forall|k: u32| #[trigger]
                s.contains_key(k) ==> s[k].len() <= c.config().spec_lines_per_set()
            &&& s.dom().len() <= c.config().spec_num_sets()
        }),
{
    lemma_occupancy_bounded(c);
    lemma_decoded_sets_in_range(c.config(), records);
    let acc = decode_trace(c.config(), records)->Ok_0;
    lemma_run_keeps_occupancy(c.config(), c.sets(), c.now(), acc);
    let s = run(c.config(), c.sets(), c.now(), acc).0;
    lemma2_to64();
    if c.config().set_bits() < 32 {
        lemma_pow2_strictly_increases(c.config().set_bits(), 32);
    }
    lemma_bounded_keys(s.dom(), c.config().spec_num_sets());
}

proof fn lemma_count_hits_prefix(h: Seq<bool>, i: int)
    requires
        0 <= i <= h.len(),
    ensures
        count_hits(h.take(i)) <= count_hits(h),
        count_hits(h) <= h.len(),
    decreases h.len(),
{
    if h.len() > 0 {
        let pre = h.drop_last();
        if i < h.len() {
            assert(pre.take(i) =~= h.take(i));
            lemma_count_hits_prefix(pre, i);
        } else {
            assert(h.take(i) =~= h);
            lemma_count_hits_prefix(pre, 0);
        }
    }
}

/// A valid trace gives one outcome per record, and the running hit count never
/// goes down from one record to a later one.
pub proof fn lemma_trace_counts(cfg: UserInput, sets: Map<u32, Seq<Line>>, clock: nat, records: Seq<String>)
    requires
        cfg.wf(),
        decode_trace(cfg, records) is Ok,
    ensures
        ({
            let h = run(cfg, sets, clock, decode_trace(cfg, records)->Ok_0).2;
            &&& h.len() == records.len()
            &&& forall|i: int, j: int|
                0 <= i <= j <= h.len() ==> count_hits(#[trigger] h.take(i)) <= count_hits(
                    #[trigger] h.take(j),
                )
        }),
{
    lemma_decoded_sets_in_range(cfg, records);
    let acc = decode_trace(cfg, records)->Ok_0;
    lemma_run_len(cfg, sets, clock, acc);
    let h = run(cfg, sets, clock, acc).2;
    assert forall|i: int, j: int| 0 <= i <= j <= h.len() implies count_hits(#[trigger] h.take(i))
        <= count_hits(#[trigger] h.take(j)) by {
        assert(h.take(j).take(i) =~= h.take(i));
        lemma_count_hits_prefix(h.take(j), i);
    }
}

proof fn lemma_run_len(cfg: UserInput, sets: Map<u32, Seq<Line>>, clock: nat, accesses: Seq<(u32, u32, u32)>)
    ensures
        run(cfg, sets, clock, accesses).2.len() == accesses.len(),
    decreases accesses.len(),
{
    if accesses.len() > 0 {
        lemma_run_len(cfg, sets, clock, accesses.drop_last());
    }
}

} // verus!
