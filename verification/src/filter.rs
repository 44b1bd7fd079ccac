//! The filtering consumer: implements the callback protocol to reject games
//! whose headers fall below configured thresholds, or that involve bots,
//! before any move text is examined.
use vstd::prelude::*;

use crate::visitor::RawHeader;
use crate::visitor::Skip;
use crate::visitor::Visitor;

verus! {

/// The thresholds a filtering consumer applies to each game's headers.
#[derive(Clone, Copy, Debug)]
pub struct FilterConfig {
    /// Smallest acceptable initial clock, in seconds.
    pub min_time_control: u16,
    /// Smallest acceptable rating for the white player.
    pub min_white_elo: u16,
    /// Smallest acceptable rating for the black player.
    pub min_black_elo: u16,
    /// Whether games involving a bot are rejected.
    pub exclude_bots: bool,
}

/// A decimal digit byte.
pub open spec fn is_digit(b: u8) -> bool {
    48 <= b <= 57
}

/// Every byte of `s` is a decimal digit.
pub open spec fn all_digits(s: Seq<u8>) -> bool {
    forall|j: int| 0 <= j < s.len() ==> is_digit(s[j])
}

/// The number the digit bytes of `s` spell, most significant first.
pub open spec fn digits_val(s: Seq<u8>) -> int
    decreases s.len(),
{
    if s.len() == 0 {
        0
    } else {
        digits_val(s.drop_last()) * 10 + (s.last() - 48)
    }
}

/// A numeric field's digit run: one leading plus sign, if present, dropped.
pub open spec fn digits_of(s: Seq<u8>) -> Seq<u8> {
    if s.len() > 0 && s[0] == 43 {
        s.skip(1)
    } else {
        s
    }
}

/// How a header's numeric field reads as a non-negative integer: defined
/// exactly for an optional plus sign followed by a non-empty run of
/// decimal digits, of unbounded value.  Since the configured thresholds
/// are `u16`, the value is reported saturated to that range: a number
/// beyond it compares the same way against every threshold, so only a
/// genuinely non-numeric or empty field reads as `None`.
pub open spec fn parse_numeric_spec(s: Seq<u8>) -> Option<u16> {
    if digits_of(s).len() > 0 && all_digits(digits_of(s)) {
        if digits_val(digits_of(s)) <= 65535 {
            Some(digits_val(digits_of(s)) as u16)
        } else {
            Some(65535u16)
        }
    } else {
        None
    }
}

/// Parses a header field as a non-negative decimal integer of unbounded
/// value, one optional leading plus sign allowed, saturated to the
/// threshold range; `None` exactly when the field is not numeric.
pub fn parse_numeric(s: &[u8]) -> (r: Option<u16>)
    ensures
        r == parse_numeric_spec(s@),
{
    let n = s.len();
    let mut i: usize = 0;
    if n > 0 && *vstd::slice::slice_index_get(s, 0) == 43 {
        i = 1;
    }
    let ghost st = i as int;
    let ghost ds = digits_of(s@);
    proof {
        assert(ds =~= s@.skip(st));
    }
    if i >= n {
        return None;
    }
    let mut val: u32 = 0;
    while i < n
        invariant
            n == s@.len(),
            ds == digits_of(s@),
            ds == s@.skip(st),
            0 <= st <= i <= n,
            all_digits(ds.take(i - st)),
            digits_val(ds.take(i - st)) <= 65535 ==> val == digits_val(ds.take(i - st)),
            digits_val(ds.take(i - st)) > 65535 ==> val == 65535,
            val <= 65535,
        decreases n - i,
    {
        let b = *vstd::slice::slice_index_get(s, i);
        proof {
            assert(ds[i - st] == s@[i as int]);
        }
        if b < 48 || b > 57 {
            proof {
                assert(!is_digit(ds[i - st]));
                assert(0 <= i - st < ds.len());
                assert(!all_digits(ds));
            }
            return None;
        }
        let d: u32 = (b - 48) as u32;
        let mut nv: u32 = val * 10 + d;
        if nv > 65535 {
            nv = 65535;
        }
        proof {
            assert(ds.take(i - st + 1).drop_last() =~= ds.take(i - st));
            assert(ds.take(i - st + 1).last() == ds[i - st]);
        }
        val = nv;
        i = i + 1;
    }
    proof {
        assert(ds.take(n - st) =~= ds);
    }
    Some(val as u16)
}

/// One byte, ASCII upper case folded to lower case.
pub open spec fn ascii_lower(b: u8) -> u8 {
    if 65 <= b <= 90 {
        (b + 32) as u8
    } else {
        b
    }
}

/// The bytes contain the substring "bot" in any ASCII case.
pub open spec fn contains_bot(s: Seq<u8>) -> bool {
    exists|k: int|
        0 <= k && k + 3 <= s.len() && #[trigger] ascii_lower(s[k]) == 98 && ascii_lower(s[k + 1])
            == 111 && ascii_lower(s[k + 2]) == 116
}

/// Looks for the substring "bot" in any ASCII case.
pub fn contains_bot_bytes(s: &[u8]) -> (r: bool)
    ensures
        r == contains_bot(s@),
{
    let n = s.len();
    if n < 3 {
        return false;
    }
    let mut i: usize = 0;
    while i <= n - 3
        invariant
            n == s@.len(),
            3 <= n,
            0 <= i,
            i + 3 <= n + 1,
            forall|k: int|
                0 <= k < i ==> !(#[trigger] ascii_lower(s@[k]) == 98 && ascii_lower(s@[k + 1])
                    == 111 && ascii_lower(s@[k + 2]) == 116),
        decreases n - i,
    {
        let mut b0 = *vstd::slice::slice_index_get(s, i);
        let mut b1 = *vstd::slice::slice_index_get(s, i + 1);
        let mut b2 = *vstd::slice::slice_index_get(s, i + 2);
        if b0 >= 65 && b0 <= 90 {
            b0 = b0 + 32;
        }
        if b1 >= 65 && b1 <= 90 {
            b1 = b1 + 32;
        }
        if b2 >= 65 && b2 <= 90 {
            b2 = b2 + 32;
        }
        if b0 == 98 && b1 == 111 && b2 == 116 {
            assert(ascii_lower(s@[i as int]) == 98 && ascii_lower(s@[i as int + 1]) == 111
                && ascii_lower(s@[i as int + 2]) == 116);
            return true;
        }
        i = i + 1;
    }
    false
}

/// The bytes of the tag name `TimeControl`.
pub open spec fn tag_time_control() -> Seq<u8> {
    seq![84u8, 105u8, 109u8, 101u8, 67u8, 111u8, 110u8, 116u8, 114u8, 111u8, 108u8]
}

/// The bytes of the tag name `WhiteElo`.
pub open spec fn tag_white_elo() -> Seq<u8> {
    seq![87u8, 104u8, 105u8, 116u8, 101u8, 69u8, 108u8, 111u8]
}

/// The bytes of the tag name `BlackElo`.
pub open spec fn tag_black_elo() -> Seq<u8> {
    seq![66u8, 108u8, 97u8, 99u8, 107u8, 69u8, 108u8, 111u8]
}

/// The bytes of the tag name `White`.
pub open spec fn tag_white() -> Seq<u8> {
    seq![87u8, 104u8, 105u8, 116u8, 101u8]
}

/// The bytes of the tag name `Black`.
pub open spec fn tag_black() -> Seq<u8> {
    seq![66u8, 108u8, 97u8, 99u8, 107u8]
}

/// The bytes of the tag name `WhiteTitle`.
pub open spec fn tag_white_title() -> Seq<u8> {
    seq![87u8, 104u8, 105u8, 116u8, 101u8, 84u8, 105u8, 116u8, 108u8, 101u8]
}

/// The bytes of the tag name `BlackTitle`.
pub open spec fn tag_black_title() -> Seq<u8> {
    seq![66u8, 108u8, 97u8, 99u8, 107u8, 84u8, 105u8, 116u8, 108u8, 101u8]
}

/// The bytes of the exact title value `BOT`.
pub open spec fn bot_title() -> Seq<u8> {
    seq![66u8, 79u8, 84u8]
}

/// Byte-for-byte equality of two slices.
pub fn bytes_eq(a: &[u8], b: &[u8]) -> (r: bool)
    ensures
        r == (a@ == b@),
{
    let n = a.len();
    if n != b.len() {
        return false;
    }
    let mut i: usize = 0;
    while i < n
        invariant
            n == a@.len(),
            n == b@.len(),
            0 <= i <= n,
            forall|k: int| 0 <= k < i ==> a@[k] == b@[k],
        decreases n - i,
    {
        if *vstd::slice::slice_index_get(a, i) != *vstd::slice::slice_index_get(b, i) {
            return false;
        }
        i = i + 1;
    }
    proof {
        assert(a@ =~= b@);
    }
    true
}

/// Whether one header tag pair disqualifies the game under `cfg`: a numeric
/// field that does not parse or falls below its threshold; a player name
/// containing "bot" in any case, when bot exclusion is on; a player title
/// exactly `BOT`, when bot exclusion is on.  Every other tag is ignored.
pub open spec fn header_fails(cfg: FilterConfig, name: Seq<u8>, value: Seq<u8>) -> bool {
    if name == tag_time_control() {
        match parse_numeric_spec(value) {
            Some(n) => n < cfg.min_time_control,
            None => true,
        }
    } else if name == tag_white_elo() {
        match parse_numeric_spec(value) {
            Some(n) => n < cfg.min_white_elo,
            None => true,
        }
    } else if name == tag_black_elo() {
        match parse_numeric_spec(value) {
            Some(n) => n < cfg.min_black_elo,
            None => true,
        }
    } else if name == tag_white() || name == tag_black() {
        cfg.exclude_bots && contains_bot(value)
    } else if name == tag_white_title() || name == tag_black_title() {
        cfg.exclude_bots && value == bot_title()
    } else {
        false
    }
}

/// A tag whose value the filter reads as a number.
pub open spec fn numeric_tag(name: Seq<u8>) -> bool {
    name == tag_time_control() || name == tag_white_elo() || name == tag_black_elo()
}

/// A numeric filter field whose value does not read as a number: the game
/// fails, and a diagnostic notice is owed to the operator.
pub open spec fn numeric_invalid(name: Seq<u8>, value: Seq<u8>) -> bool {
    numeric_tag(name) && parse_numeric_spec(value) is None
}

/// The pass/fail verdict over a whole header block: the game passes only
/// when no pair fails.
pub open spec fn passes_all(cfg: FilterConfig, hs: Seq<(Seq<u8>, Seq<u8>)>) -> bool
    decreases hs.len(),
{
    if hs.len() == 0 {
        true
    } else {
        passes_all(cfg, hs.drop_last()) && !header_fails(cfg, hs.last().0, hs.last().1)
    }
}

/// One failing header pair fails the whole game, whatever the pairs before
/// or after it hold.
pub proof fn lemma_one_failure_fails_all(cfg: FilterConfig, hs: Seq<(Seq<u8>, Seq<u8>)>, k: int)
    requires
        0 <= k < hs.len(),
        header_fails(cfg, hs[k].0, hs[k].1),
    ensures
        !passes_all(cfg, hs),
    decreases hs.len(),
{
    if k == hs.len() - 1 {
        assert(hs.last() == hs[k]);
    } else {
        assert(hs.drop_last()[k] == hs[k]);
        lemma_one_failure_fails_all(cfg, hs.drop_last(), k);
    }
}

/// With bot exclusion disabled, a player-name header never fails the
/// filter, whatever name it holds.
pub proof fn lemma_no_bot_exclusion(cfg: FilterConfig, value: Seq<u8>)
    requires
        !cfg.exclude_bots,
    ensures
        !header_fails(cfg, tag_white(), value),
        !header_fails(cfg, tag_black(), value),
{
    assert(tag_white().len() == 5);
    assert(tag_black().len() == 5);
    assert(tag_time_control().len() == 11);
    assert(tag_white_elo().len() == 8);
    assert(tag_black_elo().len() == 8);
}

/// The filtering consumer: applies the configured thresholds to each
/// header and answers the end-of-headers hook with "abandon this game"
/// exactly when some header failed a filter.
///
/// The pass/fail flag is deliberately not reset between games; a caller
/// that reuses one visitor across games carries a failure forward, so a
/// fresh visitor should be constructed per game.
pub struct FilteringVisitor {
    config: FilterConfig,
    should_write: bool,
    saw_invalid_numeric: bool,
}

impl FilteringVisitor {
    /// The thresholds this visitor applies.
    pub closed spec fn spec_config(&self) -> FilterConfig {
        self.config
    }

    /// Whether every header seen so far passed the filters.
    pub closed spec fn passes(&self) -> bool {
        self.should_write
    }

    /// Whether some numeric filter field seen so far failed to parse.
    pub closed spec fn spec_invalid_numeric(&self) -> bool {
        self.saw_invalid_numeric
    }

    /// A fresh visitor over `config`, with the flag set: a game passes
    /// until one of its headers fails a filter.
    pub fn new(config: FilterConfig) -> (v: FilteringVisitor)
        ensures
            v.spec_config() == config,
            v.passes(),
            !v.spec_invalid_numeric(),
    {
        FilteringVisitor { config, should_write: true, saw_invalid_numeric: false }
    }

    /// Whether the current game still passes the filters.
    pub fn should_write(&self) -> (b: bool)
        ensures
            b == self.passes(),
    {
        self.should_write
    }

    /// Whether a numeric filter field failed to parse, so that the caller
    /// can emit the diagnostic notice the recovery owes.
    pub fn had_invalid_numeric(&self) -> (b: bool)
        ensures
            b == self.spec_invalid_numeric(),
    {
        self.saw_invalid_numeric
    }

    /// Applies one header tag pair to the pass/fail flag: the flag ends up
    /// cleared exactly when it already was or the pair fails a filter — a
    /// failure is never forgotten, whatever headers follow.  A numeric
    /// field that does not parse is additionally remembered, so the caller
    /// can emit a diagnostic notice.
    pub fn observe_header(&mut self, key: &[u8], value: &[u8])
        ensures
            final(self).spec_config() == old(self).spec_config(),
            final(self).passes() == (old(self).passes() && !header_fails(
                old(self).spec_config(),
                key@,
                value@,
            )),
            final(self).spec_invalid_numeric() == (old(self).spec_invalid_numeric()
                || numeric_invalid(key@, value@)),
    {
        if is_tag_time_control(key) {
            match parse_numeric(value) {
                Some(tc) => {
                    if tc < self.config.min_time_control {
                        self.should_write = false;
                    }
                },
                None => {
                    self.should_write = false;
                    self.saw_invalid_numeric = true;
                },
            }
        } else if is_tag_white_elo(key) {
            match parse_numeric(value) {
                Some(e) => {
                    if e < self.config.min_white_elo {
                        self.should_write = false;
                    }
                },
                None => {
                    self.should_write = false;
                    self.saw_invalid_numeric = true;
                },
            }
        } else if is_tag_black_elo(key) {
            match parse_numeric(value) {
                Some(e) => {
                    if e < self.config.min_black_elo {
                        self.should_write = false;
                    }
                },
                None => {
                    self.should_write = false;
                    self.saw_invalid_numeric = true;
                },
            }
        } else if is_tag_white(key) || is_tag_black(key) {
            if self.config.exclude_bots && contains_bot_bytes(value) {
                self.should_write = false;
            }
        } else if is_tag_white_title(key) || is_tag_black_title(key) {
            let mut bot = Vec::new();
            bot.push(66u8);
            bot.push(79u8);
            bot.push(84u8);
            proof {
                assert(bot@ =~= bot_title());
            }
            if self.config.exclude_bots && bytes_eq(value, bot.as_slice()) {
                self.should_write = false;
            }
        }
    }

    /// The answer this consumer gives at end of headers: abandon the game
    /// exactly when the flag is cleared.
    pub fn verdict(&self) -> (s: Skip)
        ensures
            s.0 == !self.passes(),
    {
        Skip(!self.should_write)
    }
}

impl Visitor for FilteringVisitor {
    type Output = ();

    fn header(&mut self, key: &[u8], value: RawHeader<'_>) {
        self.observe_header(key, value.0);
    }

    fn end_headers(&mut self) -> Skip {
        self.verdict()
    }

    fn end_game(&mut self) {
    }
}

/// Whether `k` is the tag name `TimeControl`.
pub fn is_tag_time_control(k: &[u8]) -> (r: bool)
    ensures
        r == (k@ == tag_time_control()),
{
    let mut v: Vec<u8> = Vec::new();
    v.push(84u8);
    v.push(105u8);
    v.push(109u8);
    v.push(101u8);
    v.push(67u8);
    v.push(111u8);
    v.push(110u8);
    v.push(116u8);
    v.push(114u8);
    v.push(111u8);
    v.push(108u8);
    proof {
        assert(v@ =~= tag_time_control());
    }
    bytes_eq(k, v.as_slice())
}

/// Whether `k` is the tag name `WhiteElo`.
pub fn is_tag_white_elo(k: &[u8]) -> (r: bool)
    ensures
        r == (k@ == tag_white_elo()),
{
    let mut v: Vec<u8> = Vec::new();
    v.push(87u8);
    v.push(104u8);
    v.push(105u8);
    v.push(116u8);
    v.push(101u8);
    v.push(69u8);
    v.push(108u8);
    v.push(111u8);
    proof {
        assert(v@ =~= tag_white_elo());
    }
    bytes_eq(k, v.as_slice())
}

/// Whether `k` is the tag name `BlackElo`.
pub fn is_tag_black_elo(k: &[u8]) -> (r: bool)
    ensures
        r == (k@ == tag_black_elo()),
{
    let mut v: Vec<u8> = Vec::new();
    v.push(66u8);
    v.push(108u8);
    v.push(97u8);
    v.push(99u8);
    v.push(107u8);
    v.push(69u8);
    v.push(108u8);
    v.push(111u8);
    proof {
        assert(v@ =~= tag_black_elo());
    }
    bytes_eq(k, v.as_slice())
}

/// Whether `k` is the tag name `White`.
pub fn is_tag_white(k: &[u8]) -> (r: bool)
    ensures
        r == (k@ == tag_white()),
{
    let mut v: Vec<u8> = Vec::new();
    v.push(87u8);
    v.push(104u8);
    v.push(105u8);
    v.push(116u8);
    v.push(101u8);
    proof {
        assert(v@ =~= tag_white());
    }
    bytes_eq(k, v.as_slice())
}

/// Whether `k` is the tag name `Black`.
pub fn is_tag_black(k: &[u8]) -> (r: bool)
    ensures
        r == (k@ == tag_black()),
{
    let mut v: Vec<u8> = Vec::new();
    v.push(66u8);
    v.push(108u8);
    v.push(97u8);
    v.push(99u8);
    v.push(107u8);
    proof {
        assert(v@ =~= tag_black());
    }
    bytes_eq(k, v.as_slice())
}

/// Whether `k` is the tag name `WhiteTitle`.
pub fn is_tag_white_title(k: &[u8]) -> (r: bool)
    ensures
        r == (k@ == tag_white_title()),
{
    let mut v: Vec<u8> = Vec::new();
    v.push(87u8);
    v.push(104u8);
    v.push(105u8);
    v.push(116u8);
    v.push(101u8);
    v.push(84u8);
    v.push(105u8);
    v.push(116u8);
    v.push(108u8);
    v.push(101u8);
    proof {
        assert(v@ =~= tag_white_title());
    }
    bytes_eq(k, v.as_slice())
}

/// Whether `k` is the tag name `BlackTitle`.
pub fn is_tag_black_title(k: &[u8]) -> (r: bool)
    ensures
        r == (k@ == tag_black_title()),
{
    let mut v: Vec<u8> = Vec::new();
    v.push(66u8);
    v.push(108u8);
    v.push(97u8);
    v.push(99u8);
    v.push(107u8);
    v.push(84u8);
    v.push(105u8);
    v.push(116u8);
    v.push(108u8);
    v.push(101u8);
    proof {
        assert(v@ =~= tag_black_title());
    }
    bytes_eq(k, v.as_slice())
}

} // verus!
