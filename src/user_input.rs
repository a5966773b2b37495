//! The cache configuration: sizes, associativity and replacement policy, with the
//! geometry derived from them and the split of an address into tag, set and offset.

use vstd::prelude::*;
use vstd::arithmetic::power2::{
    pow2, lemma_pow2_unfold, lemma_pow2_adds, lemma2_to64, lemma_pow2_strictly_increases,
};
use crate::address::{DecodeError, bits_value, lemma_bits_value_concat};
use crate::text::{trim, word_is, trim_str, word_matches};

verus! {

/// Which line of a full set gives way to a new one.
#[derive(Debug, PartialEq, Eq, Clone, Copy, Structural)]
pub enum ReplacementPolicy {
    /// The line touched longest ago.
    LRU,
    /// The line inserted longest ago.
    FIFO,
}

/// The policy named by a configuration word: `l` (either case) is LRU, anything else FIFO.
pub open spec fn policy_of(s: Seq<char>) -> ReplacementPolicy {
    if word_is(trim(s), "l"@, "L"@) {
        ReplacementPolicy::LRU
    } else {
        ReplacementPolicy::FIFO
    }
}

impl ReplacementPolicy {
    /// Reads a policy word: `l` or `L`, surrounding whitespace aside, selects LRU;
    /// anything else selects FIFO.
    pub fn parse(s: &str) -> (r: ReplacementPolicy)
        ensures
            r == policy_of(s@),
    {
        let t = trim_str(s);
        if word_matches(t, "l", "L") {
            ReplacementPolicy::LRU
        } else {
            ReplacementPolicy::FIFO
        }
    }
}

impl From<String> for ReplacementPolicy {
    fn from(value: String) -> ReplacementPolicy {
        ReplacementPolicy::parse(value.as_str())
    }
}

impl vstd::std_specs::convert::FromSpecImpl<String> for ReplacementPolicy {
    open spec fn obeys_from_spec() -> bool {
        true
    }

    open spec fn from_spec(v: String) -> ReplacementPolicy {
        policy_of(v@)
    }
}

/// How lines are grouped into sets.
#[derive(Debug, PartialEq, Eq, Clone, Copy, Structural)]
pub enum CacheType {
    /// One set that holds every line.
    FullyAssociative,
    /// One line per set.
    DirectMapped,
    /// `2^n` lines per set, for the `n` carried here (1 to 4).
    SetAssociative(u32),
}

/// Why a configuration was refused.
#[derive(Debug, PartialEq, Eq, Clone, Copy, Structural)]
pub enum ConfigError {
    /// The line size exponent exceeds the cache size exponent.
    LineLargerThanCache,
    /// The cache would hold `2^32` lines or more.
    TooManyLines,
    /// The set size exponent is outside 1 to 4, or above the line count exponent.
    WaysOutOfRange,
    /// Set index and offset together are wider than a 32-bit address.
    AddressTooNarrow,
    /// The cache type word is none of `fa`, `dm`, `sa`.
    UnknownCacheType,
    /// A set-associative cache was asked for without its set size.
    WaysRequired,
}

/// The exponent of the number of lines per set.
pub open spec fn ways_exp_of(t: CacheType, lines_exp: nat) -> nat {
    match t {
        CacheType::FullyAssociative => lines_exp,
        CacheType::DirectMapped => 0,
        CacheType::SetAssociative(n) => n as nat,
    }
}

/// The first rule that the configuration breaks, if any.
pub open spec fn config_error(cache_exp: nat, line_exp: nat, t: CacheType) -> Option<ConfigError> {
    if line_exp > cache_exp {
        Some(ConfigError::LineLargerThanCache)
    } else if cache_exp - line_exp > 31 {
        Some(ConfigError::TooManyLines)
    } else if t is SetAssociative && !(1 <= ways_exp_of(t, 0) <= 4 && ways_exp_of(t, 0) <= cache_exp
        - line_exp) {
        Some(ConfigError::WaysOutOfRange)
    } else if (cache_exp - line_exp - ways_exp_of(t, (cache_exp - line_exp) as nat)) + line_exp
        > 32 {
        Some(ConfigError::AddressTooNarrow)
    } else {
        None
    }
}

/// The cache type named by a configuration word (`fa`, `dm`, `sa`, either case).
pub open spec fn cache_type_word(s: Seq<char>) -> Option<CacheType> {
    if word_is(trim(s), "fa"@, "FA"@) {
        Some(CacheType::FullyAssociative)
    } else if word_is(trim(s), "dm"@, "DM"@) {
        Some(CacheType::DirectMapped)
    } else {
        None
    }
}

impl CacheType {
    /// The exponent of the number of lines per set, for a cache of `2^num_lines_exp` lines.
    pub fn set_size_exp(&self, num_lines_exp: u32) -> (r: u32)
        ensures
            r == ways_exp_of(*self, num_lines_exp as nat),
    {
        match self {
            CacheType::FullyAssociative => num_lines_exp,
            CacheType::DirectMapped => 0,
            CacheType::SetAssociative(n) => *n,
        }
    }
}

/// A checked cache configuration. Its geometry follows from the two size
/// exponents and the cache type.
#[derive(Debug, Clone, Copy)]
pub struct UserInput {
    cache_size_exp: u32,
    line_size_exp: u32,
    cache_type: CacheType,
    replacement_policy: ReplacementPolicy,
}

impl UserInput {
    /// The cache holds `2^cache_exp` bytes.
    pub closed spec fn cache_exp(&self) -> nat {
        self.cache_size_exp as nat
    }

    /// A line holds `2^line_exp` bytes.
    pub closed spec fn line_exp(&self) -> nat {
        self.line_size_exp as nat
    }

    /// How lines are grouped into sets.
    pub closed spec fn mode(&self) -> CacheType {
        self.cache_type
    }

    /// Which line a full set gives up.
    pub closed spec fn policy(&self) -> ReplacementPolicy {
        self.replacement_policy
    }

    /// The configuration breaks none of the rules that `from_parts` checks.
    pub open spec fn wf(&self) -> bool {
        config_error(self.cache_exp(), self.line_exp(), self.mode()) is None
    }

    pub open spec fn lines_exp(&self) -> nat {
        (self.cache_exp() - self.line_exp()) as nat
    }

    pub open spec fn ways_exp(&self) -> nat {
        ways_exp_of(self.mode(), self.lines_exp())
    }

    /// Width of the set index.
    pub open spec fn set_bits(&self) -> nat {
        (self.lines_exp() - self.ways_exp()) as nat
    }

    /// Width of the offset.
    pub open spec fn offset_bits(&self) -> nat {
        self.line_exp()
    }

    /// Width of the tag.
    pub open spec fn tag_bits(&self) -> nat {
        (32 - self.set_bits() - self.offset_bits()) as nat
    }

    pub open spec fn spec_num_lines(&self) -> nat {
        pow2(self.lines_exp())
    }

    pub open spec fn spec_lines_per_set(&self) -> nat {
        pow2(self.ways_exp())
    }

    pub open spec fn spec_num_sets(&self) -> nat {
        pow2(self.set_bits())
    }

    /// Checks a configuration and builds it.
    pub fn from_parts(
        cache_size_exp: u32,
        line_size_exp: u32,
        cache_type: CacheType,
        replacement_policy: ReplacementPolicy,
    ) -> (r: Result<UserInput, ConfigError>)
        ensures
            match r {
                Ok(ui) => {
                    &&& config_error(cache_size_exp as nat, line_size_exp as nat, cache_type) is None
                    &&& ui.wf()
                    &&& ui.cache_exp() == cache_size_exp
                    &&& ui.line_exp() == line_size_exp
                    &&& ui.mode() == cache_type
                    &&& ui.policy() == replacement_policy
                },
                Err(e) => config_error(cache_size_exp as nat, line_size_exp as nat, cache_type)
                    == Some(e),
            },
    {
        if line_size_exp > cache_size_exp {
            return Err(ConfigError::LineLargerThanCache);
        }
        let lines_exp = cache_size_exp - line_size_exp;
        if lines_exp > 31 {
            return Err(ConfigError::TooManyLines);
        }
        if let CacheType::SetAssociative(n) = cache_type {
            if !(1 <= n && n <= 4 && n <= lines_exp) {
                return Err(ConfigError::WaysOutOfRange);
            }
        }
        let ways = cache_type.set_size_exp(lines_exp);
        if (lines_exp - ways) as u64 + line_size_exp as u64 > 32 {
            return Err(ConfigError::AddressTooNarrow);
        }
        Ok(UserInput { cache_size_exp, line_size_exp, cache_type, replacement_policy })
    }

    /// Builds a fully-associative (`fa`) or direct-mapped (`dm`) configuration from
    /// its words; a set-associative one (`sa`) needs its set size, see `set_associative`.
    pub fn new(
        cache_size_exp: u32,
        line_size_exp: u32,
        cache_type: String,
        replacement_policy: String,
    ) -> (r: Result<UserInput, ConfigError>)
        ensures
            match cache_type_word(cache_type@) {
                Some(t) => match r {
                    Ok(ui) => {
                        &&& config_error(cache_size_exp as nat, line_size_exp as nat, t) is None
                        &&& ui.wf()
                        &&& ui.cache_exp() == cache_size_exp
                        &&& ui.line_exp() == line_size_exp
                        &&& ui.mode() == t
                        &&& ui.policy() == policy_of(replacement_policy@)
                    },
                    Err(e) => config_error(cache_size_exp as nat, line_size_exp as nat, t) == Some(
                        e,
                    ),
                },
                None => r == Err::<UserInput, ConfigError>(
                    if word_is(trim(cache_type@), "sa"@, "SA"@) {
                        ConfigError::WaysRequired
                    } else {
                        ConfigError::UnknownCacheType
                    },
                ),
            },
    {
        let policy = ReplacementPolicy::parse(replacement_policy.as_str());
        let word = trim_str(cache_type.as_str());
        if word_matches(word, "fa", "FA") {
            UserInput::from_parts(cache_size_exp, line_size_exp, CacheType::FullyAssociative, policy)
        } else if word_matches(word, "dm", "DM") {
            UserInput::from_parts(cache_size_exp, line_size_exp, CacheType::DirectMapped, policy)
        } else if word_matches(word, "sa", "SA") {
            Err(ConfigError::WaysRequired)
        } else {
            Err(ConfigError::UnknownCacheType)
        }
    }

    /// Builds a set-associative configuration with `2^ways_choice` lines per set.
    pub fn set_associative(
        cache_size_exp: u32,
        line_size_exp: u32,
        ways_choice: u32,
        replacement_policy: String,
    ) -> (r: Result<UserInput, ConfigError>)
        ensures
            match r {
                Ok(ui) => {
                    &&& config_error(
                        cache_size_exp as nat,
                        line_size_exp as nat,
                        CacheType::SetAssociative(ways_choice),
                    ) is None
                    &&& ui.wf()
                    &&& ui.cache_exp() == cache_size_exp
                    &&& ui.line_exp() == line_size_exp
                    &&& ui.mode() == CacheType::SetAssociative(ways_choice)
                    &&& ui.policy() == policy_of(replacement_policy@)
                },
                Err(e) => config_error(
                    cache_size_exp as nat,
                    line_size_exp as nat,
                    CacheType::SetAssociative(ways_choice),
                ) == Some(e),
            },
    {
        let policy = ReplacementPolicy::parse(replacement_policy.as_str());
        UserInput::from_parts(
            cache_size_exp,
            line_size_exp,
            CacheType::SetAssociative(ways_choice),
            policy,
        )
    }

    pub fn replacement_policy(&self) -> (r: ReplacementPolicy)
        ensures
            r == self.policy(),
    {
        self.replacement_policy
    }

    pub fn num_lines_exp(&self) -> (r: u32)
        requires
            self.wf(),
        ensures
            r == self.lines_exp(),
    {
        self.cache_size_exp - self.line_size_exp
    }

    pub fn num_sets_exp(&self) -> (r: u32)
        requires
            self.wf(),
        ensures
            r == self.set_bits(),
    {
        let lines_exp = self.num_lines_exp();
        lines_exp - self.cache_type.set_size_exp(lines_exp)
    }

    pub fn num_sets(&self) -> (r: u32)
        requires
            self.wf(),
        ensures
            r == self.spec_num_sets(),
    {
        pow2_u32(self.num_sets_exp())
    }

    pub fn tag_size(&self) -> (r: u32)
        requires
            self.wf(),
        ensures
            r == self.tag_bits(),
            r + self.set_bits() + self.offset_bits() == 32,
    {
        32 - self.num_sets_exp() - self.line_size_exp
    }

    pub fn set_size(&self) -> (r: u32)
        requires
            self.wf(),
        ensures
            r == self.set_bits(),
    {
        self.num_sets_exp()
    }

    pub fn lines_per_set(&self) -> (r: u32)
        requires
            self.wf(),
        ensures
            r == self.spec_lines_per_set(),
            r as nat * self.spec_num_sets() == self.spec_num_lines(),
    {
        let lines_exp = self.num_lines_exp();
        let ways = self.cache_type.set_size_exp(lines_exp);
        proof {
            lemma_pow2_adds(ways as nat, self.set_bits());
            assert(ways as nat + self.set_bits() == self.lines_exp());
        }
        pow2_u32(ways)
    }

    pub fn offset_size(&self) -> (r: u32)
        requires
            self.wf(),
        ensures
            r == self.offset_bits(),
    {
        self.line_size_exp
    }

    pub fn num_lines(&self) -> (r: u32)
        requires
            self.wf(),
        ensures
            r == self.spec_num_lines(),
    {
        pow2_u32(self.num_lines_exp())
    }

    /// Splits a 32-bit binary address into its tag, set index and offset digits,
    /// from the most significant end; fails unless the address is 32 digits long.
    pub fn break_down_binary_address<'a>(&self, address: &'a String) -> (r: Result<
        (&'a str, &'a str, &'a str),
        DecodeError,
    >)
        requires
            self.wf(),
        ensures
            match r {
                Ok((tag, set, offset)) => {
                    &&& address@.len() == 32
                    &&& tag@ == address@.subrange(0, self.tag_bits() as int)
                    &&& set@ == address@.subrange(
                        self.tag_bits() as int,
                        (self.tag_bits() + self.set_bits()) as int,
                    )
                    &&& offset@ == address@.subrange((self.tag_bits() + self.set_bits()) as int, 32)
                },
                Err(e) => address@.len() != 32 && e == DecodeError::LengthMismatch,
            },
    {
        let s = address.as_str();
        if s.unicode_len() != 32 {
            return Err(DecodeError::LengthMismatch);
        }
        let tag_end = self.tag_size() as usize;
        let set_end = tag_end + self.set_size() as usize;
        Ok((s.substring_char(0, tag_end), s.substring_char(tag_end, set_end), s.substring_char(set_end, 32)))
    }
}

/// `2^e`, for `e` below 32.
fn pow2_u32(e: u32) -> (r: u32)
    requires
        e < 32,
    ensures
        r == pow2(e as nat),
{
    proof {
        lemma2_to64();
    }
    let mut r: u32 = 1;
    let mut i: u32 = 0;
    while i < e
        invariant
            i <= e < 32,
            r == pow2(i as nat),
            pow2(31) == 0x8000_0000,
        decreases e - i,
    {
        proof {
            lemma_pow2_unfold((i + 1) as nat);
            if i < 31 {
                lemma_pow2_strictly_increases(i as nat, 31);
            }
        }
        r = r * 2;
        i = i + 1;
    }
    r
}

/// Tag, set index and offset together are as wide as an address, and taken in
/// that order they give back the address.
pub proof fn lemma_split_reassembles(ui: UserInput, address: Seq<char>)
    requires
        ui.wf(),
        address.len() == 32,
    ensures
        ui.tag_bits() + ui.set_bits() + ui.offset_bits() == 32,
        address.subrange(0, ui.tag_bits() as int) + address.subrange(
            ui.tag_bits() as int,
            (ui.tag_bits() + ui.set_bits()) as int,
        ) + address.subrange((ui.tag_bits() + ui.set_bits()) as int, 32) == address,
{
    assert(address.subrange(0, ui.tag_bits() as int) + address.subrange(
        ui.tag_bits() as int,
        (ui.tag_bits() + ui.set_bits()) as int,
    ) + address.subrange((ui.tag_bits() + ui.set_bits()) as int, 32) =~= address);
}

/// Read as numbers, tag, set index and offset give back the address: the tag
/// shifted past the other two fields, plus the set index shifted past the offset,
/// plus the offset.
pub proof fn lemma_split_values_reassemble(ui: UserInput, address: Seq<char>)
    requires
        ui.wf(),
        address.len() == 32,
    ensures
        ({
            let tag = address.subrange(0, ui.tag_bits() as int);
            let set = address.subrange(ui.tag_bits() as int, (ui.tag_bits() + ui.set_bits()) as int);
            let offset = address.subrange((ui.tag_bits() + ui.set_bits()) as int, 32);
            bits_value(address) == bits_value(tag) * pow2(ui.set_bits() + ui.offset_bits())
                + bits_value(set) * pow2(ui.offset_bits()) + bits_value(offset)
        }),
{
    let tag = address.subrange(0, ui.tag_bits() as int);
    let set = address.subrange(ui.tag_bits() as int, (ui.tag_bits() + ui.set_bits()) as int);
    let offset = address.subrange((ui.tag_bits() + ui.set_bits()) as int, 32);
    lemma_split_reassembles(ui, address);
    assert(tag + (set + offset) =~= address);
    lemma_bits_value_concat(tag, set + offset);
    lemma_bits_value_concat(set, offset);
    lemma_pow2_adds(ui.set_bits(), ui.offset_bits());
    let vt = bits_value(tag);
    let vs = bits_value(set);
    let vo = bits_value(offset);
    let ps = pow2(ui.set_bits());
    let po = pow2(ui.offset_bits());
    assert(vt * (ps * po) + (vs * po + vo) == vt * (ps * po) + vs * po + vo);
}

} // verus!
