//! The taker's configuration: ten numeric settings, each read from the
//! `taker_config` section of a configuration file and each falling back on
//! its own to a built-in default.
use crate::document::{
    first_equals, line_end, lookup, raw_value, read_line, scan, strip_back, strip_front, stripped,
    CLOSE_BRACKET, EQUALS, NEWLINE, OPEN_BRACKET,
};
use crate::field::{all_digits, digits_value, is_digit, parse_unsigned, resolve, resolve_field, unsigned_digits, ZERO};
use vstd::prelude::*;
use vstd::string::StringSliceAdditionalSpecFns;

verus! {

/// Number of settings in a configuration.
pub const FIELD_COUNT: usize = 10;

pub const U16_LIMIT: u64 = 0xffff;

pub const U32_LIMIT: u64 = 0xffff_ffff;

pub const U64_LIMIT: u64 = 0xffff_ffff_ffff_ffff;

/// Taker configuration with refund, connection, and sleep settings.
#[derive(Debug, Clone, Copy, PartialEq, Eq, Structural)]
pub struct TakerConfig {
    pub refund_locktime: u16,
    pub refund_locktime_step: u16,
    pub first_connect_attempts: u32,
    pub first_connect_sleep_delay_sec: u64,
    pub first_connect_attempt_timeout_sec: u64,
    pub reconnect_attempts: u32,
    pub reconnect_short_sleep_delay: u64,
    pub reconnect_long_sleep_delay: u64,
    pub short_long_sleep_delay_transition: u32,
    pub reconnect_attempt_timeout_sec: u64,
}

/// The name of the file section that holds the settings.
pub open spec fn section_name() -> Seq<u8> {
    "taker_config".spec_bytes()
}

/// The key of the `k`-th setting, in declaration order.
pub open spec fn field_key(k: int) -> Seq<u8> {
    if k == 0 {
        "refund_locktime".spec_bytes()
    } else if k == 1 {
        "refund_locktime_step".spec_bytes()
    } else if k == 2 {
        "first_connect_attempts".spec_bytes()
    } else if k == 3 {
        "first_connect_sleep_delay_sec".spec_bytes()
    } else if k == 4 {
        "first_connect_attempt_timeout_sec".spec_bytes()
    } else if k == 5 {
        "reconnect_attempts".spec_bytes()
    } else if k == 6 {
        "reconnect_short_sleep_delay".spec_bytes()
    } else if k == 7 {
        "reconnect_long_sleep_delay".spec_bytes()
    } else if k == 8 {
        "short_long_sleep_delay_transition".spec_bytes()
    } else {
        "reconnect_attempt_timeout_sec".spec_bytes()
    }
}

/// The built-in default of the `k`-th setting.
pub open spec fn field_default(k: int) -> nat {
    if k == 0 {
        48
    } else if k == 1 {
        48
    } else if k == 2 {
        5
    } else if k == 3 {
        1
    } else if k == 4 {
        20
    } else if k == 5 {
        3200
    } else if k == 6 {
        10
    } else if k == 7 {
        60
    } else if k == 8 {
        60
    } else {
        300
    }
}

/// The largest value the `k`-th setting's integer type holds.
pub open spec fn field_max(k: int) -> nat {
    if k == 0 || k == 1 {
        U16_LIMIT as nat
    } else if k == 2 || k == 5 || k == 8 {
        U32_LIMIT as nat
    } else {
        U64_LIMIT as nat
    }
}

/// The value of the `k`-th setting of `c`.
pub open spec fn field_of(c: TakerConfig, k: int) -> nat {
    if k == 0 {
        c.refund_locktime as nat
    } else if k == 1 {
        c.refund_locktime_step as nat
    } else if k == 2 {
        c.first_connect_attempts as nat
    } else if k == 3 {
        c.first_connect_sleep_delay_sec as nat
    } else if k == 4 {
        c.first_connect_attempt_timeout_sec as nat
    } else if k == 5 {
        c.reconnect_attempts as nat
    } else if k == 6 {
        c.reconnect_short_sleep_delay as nat
    } else if k == 7 {
        c.reconnect_long_sleep_delay as nat
    } else if k == 8 {
        c.short_long_sleep_delay_transition as nat
    } else {
        c.reconnect_attempt_timeout_sec as nat
    }
}

/// The raw text that the document `doc` gives the `k`-th setting, if any.
pub open spec fn raw_field(doc: Seq<u8>, k: int) -> Option<Seq<u8>> {
    raw_value(doc, section_name(), field_key(k))
}

/// The value that the document `doc` gives the `k`-th setting, after fallback.
pub open spec fn resolved_field(doc: Seq<u8>, k: int) -> nat {
    resolve(raw_field(doc, k), field_default(k), field_max(k))
}

/// The built-in default configuration.
pub open spec fn default_config() -> TakerConfig {
    TakerConfig {
        refund_locktime: 48,
        refund_locktime_step: 48,
        first_connect_attempts: 5,
        first_connect_sleep_delay_sec: 1,
        first_connect_attempt_timeout_sec: 20,
        reconnect_attempts: 3200,
        reconnect_short_sleep_delay: 10,
        reconnect_long_sleep_delay: 60,
        short_long_sleep_delay_transition: 60,
        reconnect_attempt_timeout_sec: 300,
    }
}

/// The configuration that the document `doc` describes.
pub open spec fn config_of(doc: Seq<u8>) -> TakerConfig {
    TakerConfig {
        refund_locktime: resolved_field(doc, 0) as u16,
        refund_locktime_step: resolved_field(doc, 1) as u16,
        first_connect_attempts: resolved_field(doc, 2) as u32,
        first_connect_sleep_delay_sec: resolved_field(doc, 3) as u64,
        first_connect_attempt_timeout_sec: resolved_field(doc, 4) as u64,
        reconnect_attempts: resolved_field(doc, 5) as u32,
        reconnect_short_sleep_delay: resolved_field(doc, 6) as u64,
        reconnect_long_sleep_delay: resolved_field(doc, 7) as u64,
        short_long_sleep_delay_transition: resolved_field(doc, 8) as u32,
        reconnect_attempt_timeout_sec: resolved_field(doc, 9) as u64,
    }
}

proof fn lemma_resolve_bounded(raw: Option<Seq<u8>>, default: nat, max: nat)
    requires
        default <= max,
    ensures
        resolve(raw, default, max) <= max,
{
}

/// Each setting of the configuration that `doc` describes is the value
/// `doc` gives it after fallback.
pub proof fn lemma_config_fields(doc: Seq<u8>)
    ensures
        forall|k: int|
            0 <= k < FIELD_COUNT ==> #[trigger] field_of(config_of(doc), k) == resolved_field(
                doc,
                k,
            ),
{
    assert forall|k: int| 0 <= k < FIELD_COUNT implies #[trigger] field_of(config_of(doc), k)
        == resolved_field(doc, k) by {
        lemma_resolve_bounded(raw_field(doc, k), field_default(k), field_max(k));
    }
}

/// Two configurations that agree on every setting are equal.
pub proof fn lemma_fields_determine(a: TakerConfig, b: TakerConfig)
    requires
        forall|k: int| 0 <= k < FIELD_COUNT ==> #[trigger] field_of(a, k) == field_of(b, k),
    ensures
        a == b,
{
    assert(field_of(a, 0) == field_of(b, 0));
    assert(field_of(a, 1) == field_of(b, 1));
    assert(field_of(a, 2) == field_of(b, 2));
    assert(field_of(a, 3) == field_of(b, 3));
    assert(field_of(a, 4) == field_of(b, 4));
    assert(field_of(a, 5) == field_of(b, 5));
    assert(field_of(a, 6) == field_of(b, 6));
    assert(field_of(a, 7) == field_of(b, 7));
    assert(field_of(a, 8) == field_of(b, 8));
    assert(field_of(a, 9) == field_of(b, 9));
}

fn section_bytes() -> (r: &'static [u8])
    ensures
        r@ == section_name(),
{
    "taker_config".as_bytes()
}

fn key_bytes(k: usize) -> (r: &'static [u8])
    requires
        k < FIELD_COUNT,
    ensures
        r@ == field_key(k as int),
{
    if k == 0 {
        "refund_locktime".as_bytes()
    } else if k == 1 {
        "refund_locktime_step".as_bytes()
    } else if k == 2 {
        "first_connect_attempts".as_bytes()
    } else if k == 3 {
        "first_connect_sleep_delay_sec".as_bytes()
    } else if k == 4 {
        "first_connect_attempt_timeout_sec".as_bytes()
    } else if k == 5 {
        "reconnect_attempts".as_bytes()
    } else if k == 6 {
        "reconnect_short_sleep_delay".as_bytes()
    } else if k == 7 {
        "reconnect_long_sleep_delay".as_bytes()
    } else if k == 8 {
        "short_long_sleep_delay_transition".as_bytes()
    } else {
        "reconnect_attempt_timeout_sec".as_bytes()
    }
}

fn default_value(k: usize) -> (r: u64)
    requires
        k < FIELD_COUNT,
    ensures
        r as nat == field_default(k as int),
{
    if k == 0 {
        48
    } else if k == 1 {
        48
    } else if k == 2 {
        5
    } else if k == 3 {
        1
    } else if k == 4 {
        20
    } else if k == 5 {
        3200
    } else if k == 6 {
        10
    } else if k == 7 {
        60
    } else if k == 8 {
        60
    } else {
        300
    }
}

fn max_value(k: usize) -> (r: u64)
    requires
        k < FIELD_COUNT,
    ensures
        r as nat == field_max(k as int),
{
    if k == 0 || k == 1 {
        U16_LIMIT
    } else if k == 2 || k == 5 || k == 8 {
        U32_LIMIT
    } else {
        U64_LIMIT
    }
}

/// The value that the document `doc` gives the `k`-th setting, after fallback.
fn field_from(doc: &[u8], k: usize) -> (r: u64)
    requires
        k < FIELD_COUNT,
    ensures
        r as nat == resolved_field(doc@, k as int),
        r as nat <= field_max(k as int),
{
    let raw = lookup(doc, section_bytes(), key_bytes(k));
    match raw {
        Some(v) => resolve_field(Some(v.as_slice()), default_value(k), max_value(k)),
        None => resolve_field(None, default_value(k), max_value(k)),
    }
}

impl TakerConfig {
    /// Reads the configuration from the text of a configuration file. Each
    /// setting takes the value written for it in the `taker_config` section
    /// when that value is an unsigned integer that fits its type, and its
    /// default otherwise; a missing section leaves every setting at its default.
    pub fn new(contents: &str) -> (r: Self)
        ensures
            r == config_of(contents.spec_bytes()),
    {
        let doc = contents.as_bytes();
        TakerConfig {
            refund_locktime: field_from(doc, 0) as u16,
            refund_locktime_step: field_from(doc, 1) as u16,
            first_connect_attempts: field_from(doc, 2) as u32,
            first_connect_sleep_delay_sec: field_from(doc, 3),
            first_connect_attempt_timeout_sec: field_from(doc, 4),
            reconnect_attempts: field_from(doc, 5) as u32,
            reconnect_short_sleep_delay: field_from(doc, 6),
            reconnect_long_sleep_delay: field_from(doc, 7),
            short_long_sleep_delay_transition: field_from(doc, 8) as u32,
            reconnect_attempt_timeout_sec: field_from(doc, 9),
        }
    }
}

impl Default for TakerConfig {
    fn default() -> (r: Self)
        ensures
            r == default_config(),
    {
        TakerConfig {
            refund_locktime: 48,
            refund_locktime_step: 48,
            first_connect_attempts: 5,
            first_connect_sleep_delay_sec: 1,
            first_connect_attempt_timeout_sec: 20,
            reconnect_attempts: 3200,
            reconnect_short_sleep_delay: 10,
            reconnect_long_sleep_delay: 60,
            short_long_sleep_delay_transition: 60,
            reconnect_attempt_timeout_sec: 300,
        }
    }
}

/// A file that gives every setting its documented default value describes
/// the default configuration.
pub proof fn lemma_default_equivalence(doc: Seq<u8>)
    requires
        forall|k: int|
            0 <= k < FIELD_COUNT ==> (#[trigger] raw_field(doc, k) matches Some(t) && parse_unsigned(
                t,
                field_max(k),
            ) == Some(field_default(k))),
    ensures
        config_of(doc) == default_config(),
{
    lemma_config_fields(doc);
    assert forall|k: int| 0 <= k < FIELD_COUNT implies #[trigger] field_of(config_of(doc), k)
        == field_of(default_config(), k) by {
        assert(raw_field(doc, k) is Some);
    }
    lemma_fields_determine(config_of(doc), default_config());
}

/// Each setting that the file leaves out takes its default, and each that
/// it writes as a fitting unsigned integer takes that integer.
pub proof fn lemma_partial_section_fallback(doc: Seq<u8>)
    ensures
        forall|k: int|
            0 <= k < FIELD_COUNT && raw_field(doc, k) is None ==> #[trigger] field_of(
                config_of(doc),
                k,
            ) == field_default(k),
        forall|k: int|
            0 <= k < FIELD_COUNT && raw_field(doc, k) is Some && parse_unsigned(
                raw_field(doc, k)->0,
                field_max(k),
            ) is Some ==> #[trigger] field_of(config_of(doc), k) == parse_unsigned(
                raw_field(doc, k)->0,
                field_max(k),
            )->0,
{
    lemma_config_fields(doc);
}

/// A setting whose written value is not an unsigned integer that fits its
/// type takes its default.
pub proof fn lemma_type_mismatch_fallback(doc: Seq<u8>)
    ensures
        forall|k: int|
            0 <= k < FIELD_COUNT && raw_field(doc, k) is Some && parse_unsigned(
                raw_field(doc, k)->0,
                field_max(k),
            ) is None ==> #[trigger] field_of(config_of(doc), k) == field_default(k),
{
    lemma_config_fields(doc);
}

/// A file that writes one setting and leaves out all others describes the
/// default configuration with that one setting changed.
pub proof fn lemma_override_precision(doc: Seq<u8>, k: int, t: Seq<u8>, v: nat)
    requires
        0 <= k < FIELD_COUNT,
        raw_field(doc, k) == Some(t),
        parse_unsigned(t, field_max(k)) == Some(v),
        forall|j: int| 0 <= j < FIELD_COUNT && j != k ==> #[trigger] raw_field(doc, j) is None,
    ensures
        field_of(config_of(doc), k) == v,
        forall|j: int|
            0 <= j < FIELD_COUNT && j != k ==> #[trigger] field_of(config_of(doc), j) == field_of(
                default_config(),
                j,
            ),
{
    lemma_config_fields(doc);
    assert forall|j: int| 0 <= j < FIELD_COUNT && j != k implies #[trigger] field_of(
        config_of(doc),
        j,
    ) == field_of(default_config(), j) by {
        assert(raw_field(doc, j) is None);
    }
}

/// Where the configuration file is looked for.
#[derive(Debug, Clone, Copy, PartialEq, Eq, Structural)]
pub enum ConfigSource {
    /// The path the caller gave.
    Explicit,
    /// The fixed file name in the working directory.
    WorkingDir,
    /// The fixed file name in the platform's configuration directory.
    ConfigDir,
}

/// The source that the loader reads: the caller's path when one is given,
/// else the file in the working directory when it exists, else the file in
/// the configuration directory.
pub open spec fn source_for(explicit_given: bool, local_exists: bool) -> ConfigSource {
    if explicit_given {
        ConfigSource::Explicit
    } else if local_exists {
        ConfigSource::WorkingDir
    } else {
        ConfigSource::ConfigDir
    }
}

/// Chooses where the configuration file is read from.
pub fn choose_source(explicit_given: bool, local_exists: bool) -> (r: ConfigSource)
    ensures
        r == source_for(explicit_given, local_exists),
{
    if explicit_given {
        ConfigSource::Explicit
    } else if local_exists {
        ConfigSource::WorkingDir
    } else {
        ConfigSource::ConfigDir
    }
}

/// The decimal digits of `n`, most significant first, with no leading zero.
pub open spec fn decimal(n: nat) -> Seq<u8>
    decreases n,
{
    if n < 10 {
        seq![(n + ZERO) as u8]
    } else {
        decimal(n / 10) + seq![((n % 10) + ZERO) as u8]
    }
}

/// The line `key = value` that sets one setting.
pub open spec fn setting_line(key: Seq<u8>, value: nat) -> Seq<u8> {
    key + seq![32u8, EQUALS, 32u8] + decimal(value) + seq![NEWLINE]
}

/// The line that opens the settings' section.
pub open spec fn header_line() -> Seq<u8> {
    seq![OPEN_BRACKET] + section_name() + seq![CLOSE_BRACKET, NEWLINE]
}

/// The lines that set the first `n` settings of `c`.
pub open spec fn setting_lines(c: TakerConfig, n: int) -> Seq<u8>
    decreases n,
{
    if n <= 0 {
        Seq::empty()
    } else {
        setting_lines(c, n - 1) + setting_line(field_key(n - 1), field_of(c, n - 1))
    }
}

/// The text of a configuration file that sets every setting of `c`.
pub open spec fn file_text(c: TakerConfig) -> Seq<u8> {
    header_line() + setting_lines(c, FIELD_COUNT as int)
}

fn append(out: &mut Vec<u8>, b: &[u8])
    ensures
        final(out)@ == old(out)@ + b@,
{
    let mut k: usize = 0;
    while k < b.len()
        invariant
            0 <= k <= b@.len(),
            out@ == old(out)@ + b@.subrange(0, k as int),
        decreases b@.len() - k,
    {
        out.push(b[k]);
        assert(b@.subrange(0, k + 1) =~= b@.subrange(0, k as int) + seq![b@[k as int]]);
        k = k + 1;
    }
    assert(b@.subrange(0, b@.len() as int) =~= b@);
}

fn append_decimal(out: &mut Vec<u8>, n: u64)
    ensures
        final(out)@ == old(out)@ + decimal(n as nat),
    decreases n,
{
    if n < 10 {
        out.push(n as u8 + ZERO);
    } else {
        append_decimal(out, n / 10);
        out.push((n % 10) as u8 + ZERO);
    }
}

impl TakerConfig {
    /// The value of the `k`-th setting, in declaration order.
    fn field(&self, k: usize) -> (r: u64)
        requires
            k < FIELD_COUNT,
        ensures
            r as nat == field_of(*self, k as int),
    {
        if k == 0 {
            self.refund_locktime as u64
        } else if k == 1 {
            self.refund_locktime_step as u64
        } else if k == 2 {
            self.first_connect_attempts as u64
        } else if k == 3 {
            self.first_connect_sleep_delay_sec
        } else if k == 4 {
            self.first_connect_attempt_timeout_sec
        } else if k == 5 {
            self.reconnect_attempts as u64
        } else if k == 6 {
            self.reconnect_short_sleep_delay
        } else if k == 7 {
            self.reconnect_long_sleep_delay
        } else if k == 8 {
            self.short_long_sleep_delay_transition as u64
        } else {
            self.reconnect_attempt_timeout_sec
        }
    }

    /// The text of a configuration file that sets every setting to its
    /// value here, one `key = value` line each, under the section header.
    pub fn to_file_text(&self) -> (r: Vec<u8>)
        ensures
            r@ == file_text(*self),
    {
        let mut out: Vec<u8> = Vec::new();
        out.push(OPEN_BRACKET);
        append(&mut out, section_bytes());
        out.push(CLOSE_BRACKET);
        out.push(NEWLINE);
        assert(out@ =~= header_line());
        let mut k: usize = 0;
        while k < FIELD_COUNT
            invariant
                0 <= k <= FIELD_COUNT,
                out@ == header_line() + setting_lines(*self, k as int),
            decreases FIELD_COUNT - k,
        {
            let ghost before = out@;
            append(&mut out, key_bytes(k));
            out.push(32);
            out.push(EQUALS);
            out.push(32);
            append_decimal(&mut out, self.field(k));
            out.push(NEWLINE);
            assert(out@ =~= before + setting_line(field_key(k as int), field_of(*self, k as int)));
            k = k + 1;
        }
        out
    }
}

/// The text of the file written when no configuration file exists yet: every
/// setting at its default.
pub fn default_file_text() -> (r: Vec<u8>)
    ensures
        r@ == file_text(default_config()),
{
    let c = TakerConfig::default();
    c.to_file_text()
}


/// A setting or section name: one or more lower-case letters and underscores.
pub open spec fn plain_name(s: Seq<u8>) -> bool {
    s.len() > 0 && forall|i: int| 0 <= i < s.len() ==> ((97 <= #[trigger] s[i] <= 122) || s[i] == 95)
}

/// Characters allowed in a plain name.
pub open spec fn plain_chars(s: Seq<char>) -> bool {
    s.len() > 0 && forall|i: int| 0 <= i < s.len() ==> (('a' <= #[trigger] s[i] <= 'z') || s[i] == '_')
}

proof fn lemma_plain_str(s: &str)
    requires
        plain_chars(s@),
    ensures
        plain_name(s.spec_bytes()),
        s.spec_bytes().len() == s@.len(),
        s.spec_bytes()[0] == s@[0] as u8,
{
    broadcast use vstd::string::is_ascii_spec_bytes;

    assert(vstd::string::is_ascii(s));
    let b = s.spec_bytes();
    assert forall|i: int| 0 <= i < b.len() implies ((97 <= #[trigger] b[i] <= 122) || b[i] == 95) by {
        assert(b[i] == s@[i] as u8);
    }
}

proof fn lemma_key_facts()
    ensures
        plain_name(section_name()),
        forall|k: int| 0 <= k < FIELD_COUNT ==> plain_name(#[trigger] field_key(k)),
        forall|j: int, k: int|
            0 <= j < FIELD_COUNT && 0 <= k < FIELD_COUNT && j != k ==> #[trigger] field_key(j)
                != #[trigger] field_key(k),
{
    reveal_strlit("taker_config");
    reveal_strlit("refund_locktime");
    reveal_strlit("refund_locktime_step");
    reveal_strlit("first_connect_attempts");
    reveal_strlit("first_connect_sleep_delay_sec");
    reveal_strlit("first_connect_attempt_timeout_sec");
    reveal_strlit("reconnect_attempts");
    reveal_strlit("reconnect_short_sleep_delay");
    reveal_strlit("reconnect_long_sleep_delay");
    reveal_strlit("short_long_sleep_delay_transition");
    reveal_strlit("reconnect_attempt_timeout_sec");
    lemma_plain_str("taker_config");
    lemma_plain_str("refund_locktime");
    lemma_plain_str("refund_locktime_step");
    lemma_plain_str("first_connect_attempts");
    lemma_plain_str("first_connect_sleep_delay_sec");
    lemma_plain_str("first_connect_attempt_timeout_sec");
    lemma_plain_str("reconnect_attempts");
    lemma_plain_str("reconnect_short_sleep_delay");
    lemma_plain_str("reconnect_long_sleep_delay");
    lemma_plain_str("short_long_sleep_delay_transition");
    lemma_plain_str("reconnect_attempt_timeout_sec");
    assert forall|j: int, k: int|
        0 <= j < FIELD_COUNT && 0 <= k < FIELD_COUNT && j != k implies #[trigger] field_key(j)
        != #[trigger] field_key(k) by {
        if field_key(j) == field_key(k) {
            assert(field_key(j).len() == field_key(k).len());
            assert(field_key(j)[0] == field_key(k)[0]);
        }
    }
}

proof fn lemma_line_end_at(s: Seq<u8>, i: int, e: int)
    requires
        0 <= i <= e < s.len(),
        forall|m: int| i <= m < e ==> s[m] != NEWLINE,
        s[e] == NEWLINE,
    ensures
        line_end(s, i) == e,
    decreases e - i,
{
    if i < e {
        lemma_line_end_at(s, i + 1, e);
    }
}

proof fn lemma_first_equals_at(s: Seq<u8>, i: int, p: int, j: int)
    requires
        0 <= i <= p < j <= s.len(),
        forall|m: int| i <= m < p ==> s[m] != EQUALS,
        s[p] == EQUALS,
    ensures
        first_equals(s, i, j) == p,
    decreases p - i,
{
    if i < p {
        lemma_first_equals_at(s, i + 1, p, j);
    }
}

proof fn lemma_decimal(n: nat)
    ensures
        decimal(n).len() > 0,
        all_digits(decimal(n)),
        digits_value(decimal(n)) == n,
    decreases n,
{
    let d = decimal(n);
    if n >= 10 {
        lemma_decimal(n / 10);
        assert(d.drop_last() =~= decimal(n / 10));
        assert(d.last() == ((n % 10) + ZERO) as u8);
        assert((d.last() - ZERO) as nat == n % 10);
        assert((n / 10) * 10 + n % 10 == n) by (nonlinear_arith);
        assert(digits_value(d) == digits_value(d.drop_last()) * 10 + (d.last() - ZERO) as nat);
        assert forall|k: int| 0 <= k < d.len() implies is_digit(#[trigger] d[k]) by {
            if k < d.len() - 1 {
                assert(d[k] == decimal(n / 10)[k]);
            }
        }
    } else {
        assert(d.drop_last() =~= Seq::<u8>::empty());
        assert(digits_value(d.drop_last()) == 0);
        assert(d.last() == (n + ZERO) as u8);
        assert(digits_value(d) == digits_value(d.drop_last()) * 10 + (d.last() - ZERO) as nat);
    }
}

/// The decimal text of a number reads back as that number.
pub proof fn lemma_decimal_round_trip(n: nat, max: nat)
    requires
        n <= max,
    ensures
        parse_unsigned(decimal(n), max) == Some(n),
{
    lemma_decimal(n);
    let d = decimal(n);
    assert(is_digit(d[0]));
    assert(unsigned_digits(d) == d);
}

proof fn lemma_setting_lines_prefix(c: TakerConfig, j: int, n: int)
    requires
        0 <= j <= n,
    ensures
        setting_lines(c, j).len() <= setting_lines(c, n).len(),
        setting_lines(c, n).subrange(0, setting_lines(c, j).len() as int) == setting_lines(c, j),
    decreases n,
{
    if j < n {
        lemma_setting_lines_prefix(c, j, n - 1);
        let a = setting_lines(c, n - 1);
        let b = setting_lines(c, n);
        assert(b.subrange(0, a.len() as int) =~= a);
        assert(b.subrange(0, setting_lines(c, j).len() as int) =~= a.subrange(
            0,
            setting_lines(c, j).len() as int,
        ));
    } else {
        assert(setting_lines(c, n).subrange(0, setting_lines(c, j).len() as int) =~= setting_lines(
            c,
            j,
        ));
    }
}

/// Reading a `key = value` line inside the section.
proof fn lemma_read_setting_line(
    s: Seq<u8>,
    i: int,
    key: Seq<u8>,
    v: nat,
    found: Option<Seq<u8>>,
    wanted: Seq<u8>,
)
    requires
        plain_name(key),
        0 <= i,
        i + setting_line(key, v).len() <= s.len(),
        s.subrange(i, i + setting_line(key, v).len()) == setting_line(key, v),
    ensures
        line_end(s, i) == i + setting_line(key, v).len() - 1,
        read_line(s, i, i + setting_line(key, v).len() - 1, true, found, section_name(), wanted)
            == (true, if key == wanted {
            Some(decimal(v))
        } else {
            found
        }),
{
    let l = setting_line(key, v);
    let d = decimal(v);
    lemma_decimal(v);
    let n = key.len() as int;
    let e = i + l.len() - 1;
    let p = i + n + 1;
    assert forall|m: int| 0 <= m < l.len() implies s[i + m] == #[trigger] l[m] by {
        assert(s.subrange(i, i + l.len())[m] == l[m]);
    }
    assert forall|m: int| 0 <= m < n implies #[trigger] l[m] == key[m] by {}
    assert(l[n] == 32 && l[n + 1] == EQUALS && l[n + 2] == 32);
    assert forall|m: int| 0 <= m < d.len() implies #[trigger] l[n + 3 + m] == d[m] by {}
    assert(l.len() == n + 3 + d.len() + 1);
    assert(l[l.len() - 1] == NEWLINE);
    assert forall|m: int| i <= m < e implies s[m] != NEWLINE by {
        assert(s[m] == l[m - i]);
        if m - i >= n + 3 {
            assert(l[n + 3 + (m - i - n - 3)] == d[m - i - n - 3]);
            assert(is_digit(d[m - i - n - 3]));
        } else if m - i < n {
            assert(l[m - i] == key[m - i]);
        }
    }
    assert(s[e] == l[l.len() - 1]);
    lemma_line_end_at(s, i, e);
    assert forall|m: int| i <= m < p implies s[m] != EQUALS by {
        assert(s[m] == l[m - i]);
        if m - i < n {
            assert(l[m - i] == key[m - i]);
        }
    }
    assert(s[p] == l[n + 1]);
    lemma_first_equals_at(s, i, p, e);
    assert(s[i] == l[0] && l[0] == key[0]);
    assert(s[e - 1] == l[l.len() - 2]);
    assert(l[l.len() - 2] == d[d.len() - 1]);
    assert(is_digit(d[d.len() - 1]));
    assert(stripped(s, i, e, false) == (i, e));
    assert(s[p - 1] == l[n]);
    assert(s[p - 2] == l[n - 1] && l[n - 1] == key[n - 1]);
    assert(strip_back(s, i, p - 1, false) == p - 1);
    assert(stripped(s, i, p, false) == (i, p - 1));
    assert(s[p + 1] == l[n + 2]);
    assert(s[p + 2] == l[n + 3] && l[n + 3] == d[0]);
    assert(is_digit(d[0]));
    assert(strip_front(s, p + 2, e, false) == p + 2);
    assert(stripped(s, p + 1, e, false) == (p + 2, e));
    assert(s.subrange(i, p - 1) =~= key) by {
        assert forall|m: int| 0 <= m < n implies s.subrange(i, p - 1)[m] == key[m] by {
            assert(s[i + m] == l[m]);
        }
    }
    assert(s.subrange(p + 2, e) =~= d) by {
        assert forall|m: int| 0 <= m < d.len() implies s.subrange(p + 2, e)[m] == d[m] by {
            assert(s[i + (n + 3 + m)] == l[n + 3 + m]);
        }
    }
}

/// Reading the section header.
proof fn lemma_read_header(s: Seq<u8>, wanted: Seq<u8>)
    requires
        header_line().len() <= s.len(),
        s.subrange(0, header_line().len() as int) == header_line(),
    ensures
        line_end(s, 0) == header_line().len() - 1,
        read_line(s, 0, header_line().len() - 1, false, None, section_name(), wanted) == (
        true, None::<Seq<u8>>),
{
    lemma_key_facts();
    let h = header_line();
    let name = section_name();
    let n = name.len() as int;
    let e = n + 2;
    assert(h.len() == n + 3);
    assert forall|m: int| 0 <= m < h.len() implies s[m] == #[trigger] h[m] by {
        assert(s.subrange(0, h.len() as int)[m] == h[m]);
    }
    assert forall|m: int| 0 <= m < n implies #[trigger] h[m + 1] == name[m] by {}
    assert forall|m: int| 0 <= m < e implies s[m] != NEWLINE by {
        assert(s[m] == h[m]);
        if 1 <= m <= n {
            assert(h[(m - 1) + 1] == name[m - 1]);
        }
    }
    assert(s[e] == h[e]);
    lemma_line_end_at(s, 0, e);
    assert(s[0] == h[0]);
    assert(s[0] == OPEN_BRACKET);
    assert(s[e - 1] == h[e - 1] && h[e - 1] == CLOSE_BRACKET);
    assert(stripped(s, 0, e, false) == (0int, e));
    assert(s[1] == h[1] && h[1] == name[0]);
    assert(strip_front(s, 1, e, true) == 1);
    assert(s[e - 2] == h[(n - 1) + 1] && h[(n - 1) + 1] == name[n - 1]);
    assert(strip_back(s, 1, e - 1, true) == e - 1);
    assert(stripped(s, 0, e, true) == (1int, e - 1));
    assert(s.subrange(1, e - 1) =~= name) by {
        assert forall|m: int| 0 <= m < n implies s.subrange(1, e - 1)[m] == name[m] by {
            assert(s[m + 1] == h[m + 1]);
        }
    }
}

/// Where the line that sets the `j`-th setting starts in `file_text(c)`.
pub open spec fn setting_start(c: TakerConfig, j: int) -> int {
    (header_line().len() + setting_lines(c, j).len()) as int
}

/// What a lookup of the `w`-th setting has found once the first `j`
/// settings' lines have been read.
pub open spec fn found_after(c: TakerConfig, w: int, j: int) -> Option<Seq<u8>> {
    if w < j {
        Some(decimal(field_of(c, w)))
    } else {
        None
    }
}

proof fn lemma_scan_settings(c: TakerConfig, w: int, j: int)
    requires
        0 <= w < FIELD_COUNT,
        0 <= j <= FIELD_COUNT,
    ensures
        scan(file_text(c), setting_start(c, j), true, found_after(c, w, j), section_name(), field_key(w))
            == Some(decimal(field_of(c, w))),
    decreases FIELD_COUNT - j,
{
    let s = file_text(c);
    let all = setting_lines(c, FIELD_COUNT as int);
    let h = header_line();
    lemma_setting_lines_prefix(c, j, FIELD_COUNT as int);
    if j < FIELD_COUNT {
        lemma_key_facts();
        lemma_setting_lines_prefix(c, j + 1, FIELD_COUNT as int);
        let i = setting_start(c, j);
        let l = setting_line(field_key(j), field_of(c, j));
        assert(setting_lines(c, j + 1) == setting_lines(c, j) + l);
        assert(s.subrange(i, i + l.len()) =~= l) by {
            assert forall|m: int| 0 <= m < l.len() implies s.subrange(i, i + l.len())[m] == l[m] by {
                let q = setting_lines(c, j).len() + m;
                assert(all.subrange(0, setting_lines(c, j + 1).len() as int)[q] == setting_lines(
                    c,
                    j + 1,
                )[q]);
                assert(s[h.len() + q] == all[q]);
            }
        }
        lemma_read_setting_line(
            s,
            i,
            field_key(j),
            field_of(c, j),
            found_after(c, w, j),
            field_key(w),
        );
        assert(field_key(j) == field_key(w) <==> j == w);
        assert(found_after(c, w, j + 1) == if field_key(j) == field_key(w) {
            Some(decimal(field_of(c, j)))
        } else {
            found_after(c, w, j)
        });
        lemma_scan_settings(c, w, j + 1);
    } else {
        assert(setting_start(c, j) == s.len());
    }
}

/// A configuration file written from `c` reads back as `c`.
pub proof fn lemma_file_text_round_trip(c: TakerConfig)
    ensures
        config_of(file_text(c)) == c,
{
    let s = file_text(c);
    let h = header_line();
    assert(setting_lines(c, 0) =~= Seq::<u8>::empty());
    assert forall|w: int| 0 <= w < FIELD_COUNT implies #[trigger] field_of(config_of(s), w)
        == field_of(c, w) by {
        assert(s.subrange(0, h.len() as int) =~= h);
        lemma_read_header(s, field_key(w));
        lemma_scan_settings(c, w, 0);
        assert(raw_field(s, w) == Some(decimal(field_of(c, w))));
        let v = field_of(c, w);
        assert(v <= field_max(w));
        lemma_decimal_round_trip(v, field_max(w));
        lemma_config_fields(s);
    }
    lemma_fields_determine(config_of(s), c);
}

/// The file written when none exists describes the default configuration.
pub proof fn lemma_default_file_gives_defaults()
    ensures
        config_of(file_text(default_config())) == default_config(),
{
    lemma_file_text_round_trip(default_config());
}

} // verus!
