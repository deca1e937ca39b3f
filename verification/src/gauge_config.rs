//! The declarative gauge configuration.
//!
//! The configuration file is TOML organised as array-of-table sections,
//! one per recorder variant: `simple_gauge`, `counter_total_gauge`,
//! `counter_rate_gauge` and `elapsed_rate_gauge` carry `trace_type`,
//! `field_name`, `gauge_name` and `description`; `histogram_percentile_gauge`
//! carries `group`, `op`, a non-empty `percentiles` list in `[0, 1]`,
//! `gauge_name` and `description`, and expands to one recorder per
//! percentile. The parser reads the TOML subset those sections need: array
//! and plain table headers, comment and blank lines, and `key = value`
//! lines whose value is a quoted string without escapes, a plain decimal
//! number, or a bracketed list of decimal numbers. Sections are processed
//! in name order, entries in file order.

use vstd::prelude::*;
use crate::fdb_counter::SevCounter;
use crate::fdb_gauge::{ElapsedRateFDBGauge, RateCounterFDBGauge, SimpleFDBGauge,
    TotalCounterFDBGauge};
use crate::histogram::HistogramPercentileFDBGauge;
use crate::log_metrics::{LogMetrics, Recorder};
use crate::numbers::{dec_digits_of, fp_value_of, parse_fp, u64_to_string};
use crate::labels::{labels_view, PairView};
use crate::text::{first_sep, str_eq, str_starts_with, str_ends_with};

verus! {

/// The recorder variant a standard section names.
#[derive(Clone, Copy, Debug, PartialEq, Eq, Structural)]
pub enum GaugeType {
    Simple,
    CounterTotal,
    CounterRate,
    ElapsedRate,
}

impl GaugeType {
    /// The variant a section name denotes, if any.
    pub fn from_section_name(section: &str) -> (r: Option<GaugeType>)
        ensures
            r == (if section@ == "simple_gauge"@ {
                Some(GaugeType::Simple)
            } else if section@ == "counter_total_gauge"@ {
                Some(GaugeType::CounterTotal)
            } else if section@ == "counter_rate_gauge"@ {
                Some(GaugeType::CounterRate)
            } else if section@ == "elapsed_rate_gauge"@ {
                Some(GaugeType::ElapsedRate)
            } else {
                Option::<GaugeType>::None
            }),
    {
        if str_eq(section, "simple_gauge") {
            Some(GaugeType::Simple)
        } else if str_eq(section, "counter_total_gauge") {
            Some(GaugeType::CounterTotal)
        } else if str_eq(section, "counter_rate_gauge") {
            Some(GaugeType::CounterRate)
        } else if str_eq(section, "elapsed_rate_gauge") {
            Some(GaugeType::ElapsedRate)
        } else {
            None
        }
    }
}

/// A standard gauge's configuration record.
#[derive(Clone, Debug)]
pub struct StandardGaugeDefinition {
    pub trace_type: String,
    pub gauge_name: String,
    pub field_name: String,
    pub description: String,
}

/// One expanded histogram percentile gauge; the percentile is a
/// fixed-point fraction of `10^9`.
#[derive(Clone, Debug)]
pub struct HistogramPercentileGaugeDefinition {
    pub group: String,
    pub op: String,
    pub percentile: i64,
    pub gauge_name: String,
    pub description: String,
}

/// One configured recorder definition.
#[derive(Clone, Debug)]
pub enum GaugeDefinition {
    Simple(StandardGaugeDefinition),
    CounterTotal(StandardGaugeDefinition),
    CounterRate(StandardGaugeDefinition),
    ElapsedRate(StandardGaugeDefinition),
    HistogramPercentile(HistogramPercentileGaugeDefinition),
}

/// Every histogram percentile in a definition list is in `[0, 1]`.
pub open spec fn defs_valid(defs: Seq<GaugeDefinition>) -> bool {
    forall|i: int|
        0 <= i < defs.len() ==> match #[trigger] defs[i] {
            GaugeDefinition::HistogramPercentile(h) => 0 <= h.percentile <= 1_000_000_000,
            _ => true,
        }
}

/// A failure to read the configuration.
#[derive(Debug)]
pub enum ConfigError {
    /// A line fits no form of the accepted grammar.
    MalformedLine(String),
    /// A recognised section appeared as a plain table, not an array.
    SectionNotArray(String),
    /// An entry lacks a required string key.
    MissingKey(String),
    /// An entry's `percentiles` list is empty.
    EmptyPercentiles,
    /// A percentile lies outside the inclusive unit interval.
    PercentileOutOfRange,
    /// No recognised section occurred at all.
    NoRecognizedSections,
}

pub open spec fn config_message_view(e: ConfigError) -> Seq<char> {
    match e {
        ConfigError::MalformedLine(l) => "malformed gauge config line: "@ + l@,
        ConfigError::SectionNotArray(s) => "expected "@ + s@ + " section to be an array"@,
        ConfigError::MissingKey(k) => "gauge config entry is missing key "@ + k@,
        ConfigError::EmptyPercentiles => "percentiles list cannot be empty"@,
        ConfigError::PercentileOutOfRange => "percentile must be between 0.0 and 1.0"@,
        ConfigError::NoRecognizedSections =>
            "gauge config did not contain any recognized sections"@,
    }
}

impl ConfigError {
    /// The error's display text.
    pub fn message(&self) -> (r: String)
        ensures
            r@ == config_message_view(*self),
    {
        match self {
            ConfigError::MalformedLine(l) => String::from_str("malformed gauge config line: ")
                .concat(l.as_str()),
            ConfigError::SectionNotArray(s) => String::from_str("expected ").concat(
                s.as_str(),
            ).concat(" section to be an array"),
            ConfigError::MissingKey(k) => String::from_str("gauge config entry is missing key ")
                .concat(k.as_str()),
            ConfigError::EmptyPercentiles => String::from_str("percentiles list cannot be empty"),
            ConfigError::PercentileOutOfRange => String::from_str(
                "percentile must be between 0.0 and 1.0",
            ),
            ConfigError::NoRecognizedSections => String::from_str(
                "gauge config did not contain any recognized sections",
            ),
        }
    }
}

// ---------------------------------------------------------------------
// Percentile rendering.
// ---------------------------------------------------------------------

/// Strip trailing zero digits.
pub open spec fn strip_zeros(s: Seq<char>) -> Seq<char>
    decreases s.len(),
{
    if s.len() > 0 && s.last() == '0' {
        strip_zeros(s.drop_last())
    } else {
        s
    }
}

/// `k` zero digits.
pub open spec fn zero_digits(k: nat) -> Seq<char>
    decreases k,
{
    if k == 0 {
        Seq::empty()
    } else {
        zero_digits((k - 1) as nat) + seq!['0']
    }
}

/// `n` rendered in exactly six digits, zero-padded.
pub open spec fn six_digits_of(n: nat) -> Seq<char> {
    zero_digits((6 - dec_digits_of(n).len()) as nat) + dec_digits_of(n)
}

/// The percentile as a percentage in millionths, rounded half-up to six
/// decimal places: `p` is a fraction in `10^-9`, the percentage in
/// `10^-6` is `(p + 5) / 10`.
pub open spec fn pct_millionths(p: int) -> int {
    (p * 100 + 500) / 1000
}

/// The percentage display: the integer percent, then the six decimal
/// places with trailing zeros stripped, joined by the given separator
/// when any decimals remain.
pub open spec fn pct_display(p: int, sep: char) -> Seq<char> {
    let m = pct_millionths(p);
    let ip = dec_digits_of((m / 1_000_000) as nat);
    let fr = strip_zeros(six_digits_of((m % 1_000_000) as nat));
    if fr.len() == 0 {
        ip
    } else {
        ip + seq![sep] + fr
    }
}

/// The gauge-name suffix for a percentile: `p`, then the percentage with
/// `_` for the decimal point.
pub open spec fn spec_percentile_suffix(p: int) -> Seq<char> {
    seq!['p'] + pct_display(p, '_')
}

/// The description suffix body: the percentage with a real decimal point.
pub open spec fn spec_percentile_display(p: int) -> Seq<char> {
    pct_display(p, '.')
}

proof fn lemma_dec_digits_len(n: nat, k: nat)
    requires
        n < crate::numbers::pow10(k),
        k >= 1,
    ensures
        dec_digits_of(n).len() <= k,
    decreases k,
{
    if n < 10 {
    } else {
        crate::numbers::lemma_pow10_pos(k);
        assert(crate::numbers::pow10(k) == 10 * crate::numbers::pow10((k - 1) as nat));
        assert(n / 10 < crate::numbers::pow10((k - 1) as nat));
        if k - 1 >= 1 {
            lemma_dec_digits_len(n / 10, (k - 1) as nat);
        } else {
            assert(n / 10 < 1);
        }
    }
}

/// Render the six decimal places of `n < 10^6`, zero-padded.
fn six_digit_string(n: u64) -> (r: String)
    requires
        n < 1_000_000,
    ensures
        r@ == six_digits_of(n as nat),
{
    proof {
        crate::numbers::lemma_pow10_vals();
        lemma_dec_digits_len(n as nat, 6);
    }
    let digits = u64_to_string(n);
    let mut pad = String::new();
    let width: usize = 6 - digits.as_str().unicode_len();
    proof {
        assert(pad@ =~= zero_digits(0));
    }
    let mut made: usize = 0;
    while made < width
        invariant
            0 <= made <= width,
            pad@ == zero_digits(made as nat),
        decreases width - made,
    {
        proof {
            reveal_strlit("0");
        }
        pad.append("0");
        made = made + 1;
    }
    pad.concat(digits.as_str())
}

/// Strip trailing zeros from a digit string.
#[verifier::loop_isolation(false)]
fn strip_zero_string(s: &String) -> (r: String)
    ensures
        r@ == strip_zeros(s@),
{
    let mut end: usize = s.as_str().unicode_len();
    proof {
        assert(s@.take(end as int) =~= s@);
    }
    while end > 0
        invariant
            0 <= end <= s@.len(),
            strip_zeros(s@) == strip_zeros(s@.take(end as int)),
        decreases end,
    {
        if s.as_str().get_char(end - 1) != '0' {
            break ;
        }
        proof {
            let cur = s@.take(end as int);
            assert(cur.last() == s@[end - 1]);
            assert(cur.drop_last() =~= s@.take(end - 1));
        }
        end = end - 1;
    }
    proof {
        let cur = s@.take(end as int);
        if end > 0 {
            assert(cur.last() == s@[end - 1]);
        }
        assert(strip_zeros(cur) == cur);
    }
    let r = s.as_str().substring_char(0, end).to_owned();
    proof {
        assert(r@ =~= s@.take(end as int));
    }
    r
}

/// The percentage rendering shared by names and descriptions.
fn pct_string(p: i64, sep: &str) -> (r: String)
    requires
        0 <= p <= 1_000_000_000,
        sep@.len() == 1,
    ensures
        r@ == pct_display(p as int, sep@[0]),
{
    let m = ((p as i128) * 100 + 500) / 1000;
    proof {
        assert(m == pct_millionths(p as int));
        assert(0 <= m <= 100_000_000);
    }
    let ip = u64_to_string((m / 1_000_000) as u64);
    let frn = (m % 1_000_000) as u64;
    let fr6 = six_digit_string(frn);
    let fr = strip_zero_string(&fr6);
    if fr.as_str().unicode_len() == 0 {
        proof {
            assert(ip@ =~= pct_display(p as int, sep@[0]));
        }
        ip
    } else {
        let r = ip.concat(sep).concat(fr.as_str());
        proof {
            assert(sep@ =~= seq![sep@[0]]);
            assert(r@ =~= pct_display(p as int, sep@[0]));
        }
        r
    }
}

/// The gauge-name suffix such as `p99_5` for a percentile.
pub fn percentile_suffix(p: i64) -> (r: String)
    requires
        0 <= p <= 1_000_000_000,
    ensures
        r@ == spec_percentile_suffix(p as int),
{
    proof {
        reveal_strlit("_");
        reveal_strlit("p");
    }
    let r = String::from_str("p").concat(pct_string(p, "_").as_str());
    proof {
        assert(r@ =~= spec_percentile_suffix(p as int));
    }
    r
}

/// The percentage display such as `99.5` for a percentile.
pub fn percentile_display(p: i64) -> (r: String)
    requires
        0 <= p <= 1_000_000_000,
    ensures
        r@ == spec_percentile_display(p as int),
{
    proof {
        reveal_strlit(".");
    }
    pct_string(p, ".")
}

// ---------------------------------------------------------------------
// The TOML-subset reader.
// ---------------------------------------------------------------------

/// Whitespace accepted around configuration tokens.
pub open spec fn is_cfg_ws(c: char) -> bool {
    c == ' ' || c == '\t' || c == '\r' || c == '\n'
}

pub open spec fn config_blank(s: Seq<char>) -> bool {
    forall|i: int| 0 <= i < s.len() ==> is_cfg_ws(#[trigger] s[i])
}

fn cfg_ws_char(c: char) -> (r: bool)
    ensures
        r == is_cfg_ws(c),
{
    c == ' ' || c == '\t' || c == '\r' || c == '\n'
}

/// Whether the whole text is whitespace.
#[verifier::loop_isolation(false)]
fn is_blank(s: &str) -> (r: bool)
    ensures
        r == config_blank(s@),
{
    let n = s.unicode_len();
    let mut i: usize = 0;
    while i < n
        invariant
            0 <= i <= n,
            forall|j: int| 0 <= j < i ==> is_cfg_ws(#[trigger] s@[j]),
        decreases n - i,
    {
        if !cfg_ws_char(s.get_char(i)) {
            return false;
        }
        i = i + 1;
    }
    true
}

/// Count of leading whitespace characters.
pub open spec fn lead_ws(s: Seq<char>) -> int
    decreases s.len(),
{
    if s.len() > 0 && is_cfg_ws(s[0]) {
        1 + lead_ws(s.skip(1))
    } else {
        0
    }
}

/// Count of trailing whitespace characters.
pub open spec fn trail_ws(s: Seq<char>) -> int
    decreases s.len(),
{
    if s.len() > 0 && is_cfg_ws(s.last()) {
        1 + trail_ws(s.drop_last())
    } else {
        0
    }
}

/// The text with surrounding whitespace removed.
pub open spec fn spec_trim(s: Seq<char>) -> Seq<char> {
    let cut = s.take(s.len() - trail_ws(s));
    cut.skip(lead_ws(cut))
}

proof fn lemma_trail_ws_bounds(s: Seq<char>)
    ensures
        0 <= trail_ws(s) <= s.len(),
        forall|i: int| s.len() - trail_ws(s) <= i < s.len() ==> is_cfg_ws(#[trigger] s[i]),
        trail_ws(s) < s.len() ==> !is_cfg_ws(s[s.len() - trail_ws(s) - 1]),
    decreases s.len(),
{
    if s.len() > 0 && is_cfg_ws(s.last()) {
        lemma_trail_ws_bounds(s.drop_last());
        assert forall|i: int| s.len() - trail_ws(s) <= i < s.len() implies is_cfg_ws(
            #[trigger] s[i],
        ) by {
            if i < s.len() - 1 {
                assert(s.drop_last()[i] == s[i]);
            }
        }
        if trail_ws(s) < s.len() {
            assert(s.drop_last()[s.len() - trail_ws(s) - 1] == s[s.len() - trail_ws(s) - 1]);
        }
    }
}

proof fn lemma_lead_ws_bounds(s: Seq<char>)
    ensures
        0 <= lead_ws(s) <= s.len(),
        forall|i: int| 0 <= i < lead_ws(s) ==> is_cfg_ws(#[trigger] s[i]),
        lead_ws(s) < s.len() ==> !is_cfg_ws(s[lead_ws(s)]),
    decreases s.len(),
{
    if s.len() > 0 && is_cfg_ws(s[0]) {
        lemma_lead_ws_bounds(s.skip(1));
        assert forall|i: int| 0 <= i < lead_ws(s) implies is_cfg_ws(#[trigger] s[i]) by {
            if i >= 1 {
                assert(s.skip(1)[i - 1] == s[i]);
            }
        }
        if lead_ws(s) < s.len() {
            assert(s.skip(1)[lead_ws(s) - 1] == s[lead_ws(s)]);
        }
    }
}

/// Trim surrounding whitespace.
#[verifier::loop_isolation(false)]
fn trim_ws_str(s: &str) -> (r: String)
    ensures
        r@ == spec_trim(s@),
{
    let n = s.unicode_len();
    let mut hi: usize = n;
    proof {
        assert(s@.take(n as int) =~= s@);
    }
    while hi > 0
        invariant
            0 <= hi <= n,
            n == s@.len(),
            trail_ws(s@) == trail_ws(s@.take(hi as int)) + (n - hi),
            forall|i: int| hi <= i < n ==> is_cfg_ws(#[trigger] s@[i]),
        decreases hi,
    {
        if !cfg_ws_char(s.get_char(hi - 1)) {
            break ;
        }
        proof {
            let cur = s@.take(hi as int);
            assert(cur.last() == s@[hi - 1]);
            assert(cur.drop_last() =~= s@.take(hi - 1));
        }
        hi = hi - 1;
    }
    proof {
        let cur = s@.take(hi as int);
        if hi > 0 {
            assert(cur.last() == s@[hi - 1]);
        }
        assert(trail_ws(cur) == 0);
        assert(cur =~= s@.take(s@.len() - trail_ws(s@)));
    }
    let mut lo: usize = 0;
    while lo < hi
        invariant
            0 <= lo <= hi,
            hi <= n,
            n == s@.len(),
            forall|i: int| 0 <= i < lo ==> is_cfg_ws(#[trigger] s@[i]),
        decreases hi - lo,
    {
        if !cfg_ws_char(s.get_char(lo)) {
            break ;
        }
        lo = lo + 1;
    }
    proof {
        let cut = s@.take(s@.len() - trail_ws(s@));
        assert forall|i: int| 0 <= i < lo implies is_cfg_ws(#[trigger] cut[i]) by {
            assert(cut[i] == s@[i]);
        }
        lemma_no_lead_ws(cut, lo as int);
        lemma_lead_ws_bounds(cut);
        if lo < hi {
            assert(cut[lo as int] == s@[lo as int]);
            assert(lead_ws(cut) == lo);
        } else {
            assert(lead_ws(cut) == lo);
        }
        assert(cut.skip(lo as int) =~= s@.subrange(lo as int, hi as int));
    }
    s.substring_char(lo, hi).to_owned()
}

/// When the first `k` characters are all whitespace, at least `k`
/// characters are trimmed from the front.
proof fn lemma_no_lead_ws(s: Seq<char>, k: int)
    requires
        0 <= k <= s.len(),
        forall|i: int| 0 <= i < k ==> is_cfg_ws(#[trigger] s[i]),
    ensures
        lead_ws(s) >= k,
{
    lemma_lead_ws_bounds(s);
    if lead_ws(s) < k {
        assert(!is_cfg_ws(s[lead_ws(s)]));
    }
}

/// One `key = value` pair of an entry, with the value kept as raw text;
/// values are read (as quoted strings or decimal lists) only where a
/// recognised section needs them, so unrecognised sections may hold any
/// value forms.
pub type ConfigEntry = Vec<(String, String)>;

/// One section: its name, whether it was an array of tables, and its
/// entries.
pub struct RawSection {
    pub name: String,
    pub is_array: bool,
    pub entries: Vec<ConfigEntry>,
}

/// The abstract reading of a section.
#[verifier::ext_equal]
pub struct SecView {
    pub name: Seq<char>,
    pub is_array: bool,
    pub entries: Seq<Seq<PairView>>,
}

pub open spec fn sec_view(s: RawSection) -> SecView {
    SecView {
        name: s.name@,
        is_array: s.is_array,
        entries: s.entries@.map(|i: int, e: ConfigEntry| labels_view(e@)),
    }
}

pub open spec fn secs_view(ss: Seq<RawSection>) -> Seq<SecView> {
    ss.map(|i: int, s: RawSection| sec_view(s))
}

/// Where new `key = value` lines go.
enum Cursor {
    Outside,
    InTable,
    InEntry(usize),
}

pub enum CursorView {
    Outside,
    InTable,
    InEntry(int),
}

spec fn cursor_view(c: Cursor) -> CursorView {
    match c {
        Cursor::Outside => CursorView::Outside,
        Cursor::InTable => CursorView::InTable,
        Cursor::InEntry(i) => CursorView::InEntry(i as int),
    }
}

/// The abstract reading of one configuration line.
pub enum LineView {
    /// Nothing: all whitespace, or a comment.
    Blank,
    /// `[[name]]`: the section name and the whole trimmed line.
    ArrayHeader(Seq<char>, Seq<char>),
    /// `[name]`: the section name and the whole trimmed line.
    TableHeader(Seq<char>, Seq<char>),
    /// `key = value`: the trimmed key and the trimmed raw value text.
    KeyVal(Seq<char>, Seq<char>),
    /// No form of the grammar: the trimmed line.
    Unreadable(Seq<char>),
}

/// Read one raw line: trim it; skip blanks and `#` comments; recognise
/// `[[name]]` and `[name]` headers; otherwise split at the first `=`.
pub open spec fn classify_line(raw: Seq<char>) -> LineView {
    let line = spec_trim(raw);
    if line.len() == 0 || line[0] == '#' {
        LineView::Blank
    } else if line.len() >= 4 && crate::text::spec_starts_with(line, "[["@)
        && crate::text::spec_ends_with(line, "]]"@) {
        LineView::ArrayHeader(spec_trim(line.subrange(2, line.len() - 2)), line)
    } else if line.len() >= 2 && line[0] == '[' && line.last() == ']' {
        LineView::TableHeader(spec_trim(line.subrange(1, line.len() - 1)), line)
    } else {
        let e = first_sep(line, '=');
        if e == line.len() {
            LineView::Unreadable(line)
        } else {
            let key = spec_trim(line.take(e));
            if key.len() == 0 {
                LineView::Unreadable(line)
            } else {
                LineView::KeyVal(key, spec_trim(line.skip(e + 1)))
            }
        }
    }
}

/// The abstract reading of a configuration failure.
pub enum ErrView {
    Unreadable(Seq<char>),
    NotArray(Seq<char>),
    MissingKey(Seq<char>),
    EmptyPercentiles,
    PercentileOutOfRange,
    NoRecognized,
}

pub open spec fn err_view(e: ConfigError) -> ErrView {
    match e {
        ConfigError::MalformedLine(l) => ErrView::Unreadable(l@),
        ConfigError::SectionNotArray(s) => ErrView::NotArray(s@),
        ConfigError::MissingKey(k) => ErrView::MissingKey(k@),
        ConfigError::EmptyPercentiles => ErrView::EmptyPercentiles,
        ConfigError::PercentileOutOfRange => ErrView::PercentileOutOfRange,
        ConfigError::NoRecognizedSections => ErrView::NoRecognized,
    }
}

/// The abstract reading of a definition.
#[verifier::ext_equal]
pub struct StdView {
    pub trace_type: Seq<char>,
    pub gauge_name: Seq<char>,
    pub field_name: Seq<char>,
    pub description: Seq<char>,
}

#[verifier::ext_equal]
pub struct HistView {
    pub group: Seq<char>,
    pub op: Seq<char>,
    pub percentile: int,
    pub gauge_name: Seq<char>,
    pub description: Seq<char>,
}

#[verifier::ext_equal]
pub enum DefView {
    Simple(StdView),
    CounterTotal(StdView),
    CounterRate(StdView),
    ElapsedRate(StdView),
    Hist(HistView),
}

pub open spec fn std_view_of(d: StandardGaugeDefinition) -> StdView {
    StdView {
        trace_type: d.trace_type@,
        gauge_name: d.gauge_name@,
        field_name: d.field_name@,
        description: d.description@,
    }
}

pub open spec fn def_view(d: GaugeDefinition) -> DefView {
    match d {
        GaugeDefinition::Simple(x) => DefView::Simple(std_view_of(x)),
        GaugeDefinition::CounterTotal(x) => DefView::CounterTotal(std_view_of(x)),
        GaugeDefinition::CounterRate(x) => DefView::CounterRate(std_view_of(x)),
        GaugeDefinition::ElapsedRate(x) => DefView::ElapsedRate(std_view_of(x)),
        GaugeDefinition::HistogramPercentile(h) => DefView::Hist(
            HistView {
                group: h.group@,
                op: h.op@,
                percentile: h.percentile as int,
                gauge_name: h.gauge_name@,
                description: h.description@,
            },
        ),
    }
}

pub open spec fn defs_view(ds: Seq<GaugeDefinition>) -> Seq<DefView> {
    ds.map(|i: int, d: GaugeDefinition| def_view(d))
}

// ---------------------------------------------------------------------
// The value grammars a recognised section reads.
// ---------------------------------------------------------------------

/// A quoted string without escapes: the text between the quotes.
pub open spec fn spec_quoted_str(t: Seq<char>) -> Option<Seq<char>> {
    if t.len() >= 2 && t[0] == '"' && t.last() == '"' && (forall|i: int|
        1 <= i < t.len() - 1 ==> #[trigger] t[i] != '"' && t[i] != '\\') {
        Some(t.subrange(1, t.len() - 1))
    } else {
        None
    }
}

/// A bracketed, comma-separated list of decimal numbers; a blank interior
/// is the empty list.
pub open spec fn spec_num_list(t: Seq<char>) -> Option<Seq<int>> {
    if t.len() >= 2 && t[0] == '[' && t.last() == ']' {
        let inner = t.subrange(1, t.len() - 1);
        if config_blank(inner) {
            Some(Seq::empty())
        } else {
            let parts = crate::text::sep_tokens(inner, ',');
            if forall|i: int|
                0 <= i < parts.len() ==> fp_value_of(spec_trim(#[trigger] parts[i])) is Some {
                Some(Seq::new(parts.len(), |i: int| fp_value_of(spec_trim(parts[i])).unwrap()))
            } else {
                None
            }
        }
    } else {
        None
    }
}

/// The raw text of the first pair under a key.
pub open spec fn entry_lookup(e: Seq<PairView>, k: Seq<char>) -> Option<Seq<char>>
    decreases e.len(),
{
    if e.len() == 0 {
        None
    } else if e[0].0 == k {
        Some(e[0].1)
    } else {
        entry_lookup(e.skip(1), k)
    }
}

/// The string value under a key: present and quoted.
pub open spec fn entry_str(e: Seq<PairView>, k: Seq<char>) -> Option<Seq<char>> {
    match entry_lookup(e, k) {
        Some(raw) => spec_quoted_str(raw),
        None => None,
    }
}

// ---------------------------------------------------------------------
// Assembling lines into sections.
// ---------------------------------------------------------------------

/// Index of the first section with a name, or the section count.
pub open spec fn find_sec(ss: Seq<SecView>, name: Seq<char>) -> int
    decreases ss.len(),
{
    if ss.len() == 0 {
        0
    } else if ss[0].name == name {
        0
    } else {
        1 + find_sec(ss.skip(1), name)
    }
}

/// What one line does to the sections and the cursor: headers open (or
/// reopen) sections, `key = value` lines join the open entry, and a
/// section used both as a table and as an array is unreadable.
pub open spec fn assemble_step(ss: Seq<SecView>, cur: CursorView, lv: LineView) -> Result<
    (Seq<SecView>, CursorView),
    ErrView,
> {
    match lv {
        LineView::Blank => Ok((ss, cur)),
        LineView::Unreadable(l) => Err(ErrView::Unreadable(l)),
        LineView::ArrayHeader(nm, l) => {
            let i = find_sec(ss, nm);
            if i < ss.len() {
                if !ss[i].is_array {
                    Err(ErrView::Unreadable(l))
                } else {
                    Ok(
                        (
                            ss.update(
                                i,
                                SecView {
                                    name: ss[i].name,
                                    is_array: true,
                                    entries: ss[i].entries.push(Seq::empty()),
                                },
                            ),
                            CursorView::InEntry(i),
                        ),
                    )
                }
            } else {
                Ok(
                    (
                        ss.push(SecView { name: nm, is_array: true, entries: seq![Seq::empty()] }),
                        CursorView::InEntry(ss.len() as int),
                    ),
                )
            }
        },
        LineView::TableHeader(nm, l) => {
            let i = find_sec(ss, nm);
            if i < ss.len() {
                if ss[i].is_array {
                    Err(ErrView::Unreadable(l))
                } else {
                    Ok((ss, CursorView::InTable))
                }
            } else {
                Ok(
                    (
                        ss.push(SecView { name: nm, is_array: false, entries: Seq::empty() }),
                        CursorView::InTable,
                    ),
                )
            }
        },
        LineView::KeyVal(k, v) => match cur {
            CursorView::InEntry(i) => {
                if 0 <= i < ss.len() && ss[i].entries.len() > 0 {
                    let sec = ss[i];
                    Ok(
                        (
                            ss.update(
                                i,
                                SecView {
                                    name: sec.name,
                                    is_array: sec.is_array,
                                    entries: sec.entries.update(
                                        sec.entries.len() - 1,
                                        sec.entries.last().push((k, v)),
                                    ),
                                },
                            ),
                            cur,
                        ),
                    )
                } else {
                    Ok((ss, cur))
                }
            },
            _ => Ok((ss, cur)),
        },
    }
}

/// Fold every line, in order, from an empty state.
pub open spec fn assemble_lines(lines: Seq<Seq<char>>) -> Result<
    (Seq<SecView>, CursorView),
    ErrView,
>
    decreases lines.len(),
{
    if lines.len() == 0 {
        Ok((Seq::empty(), CursorView::Outside))
    } else {
        match assemble_lines(lines.drop_last()) {
            Ok((ss, cur)) => assemble_step(ss, cur, classify_line(lines.last())),
            Err(e) => Err(e),
        }
    }
}

// ---------------------------------------------------------------------
// Typing the assembled sections.
// ---------------------------------------------------------------------

pub open spec fn spec_section_kind(name: Seq<char>) -> Option<GaugeType> {
    if name == "simple_gauge"@ {
        Some(GaugeType::Simple)
    } else if name == "counter_total_gauge"@ {
        Some(GaugeType::CounterTotal)
    } else if name == "counter_rate_gauge"@ {
        Some(GaugeType::CounterRate)
    } else if name == "elapsed_rate_gauge"@ {
        Some(GaugeType::ElapsedRate)
    } else {
        None
    }
}

pub open spec fn spec_recognized(name: Seq<char>) -> bool {
    name == "histogram_percentile_gauge"@ || spec_section_kind(name) is Some
}

pub open spec fn any_recognized_upto(ss: Seq<SecView>, n: int) -> bool {
    exists|i: int| 0 <= i < n && spec_recognized((#[trigger] ss[i]).name)
}

/// A standard entry: its four string keys, in the order they are checked.
pub open spec fn spec_std_entry(kind: GaugeType, e: Seq<PairView>) -> Result<DefView, ErrView> {
    if entry_str(e, "trace_type"@) is None {
        Err(ErrView::MissingKey("trace_type"@))
    } else if entry_str(e, "gauge_name"@) is None {
        Err(ErrView::MissingKey("gauge_name"@))
    } else if entry_str(e, "field_name"@) is None {
        Err(ErrView::MissingKey("field_name"@))
    } else if entry_str(e, "description"@) is None {
        Err(ErrView::MissingKey("description"@))
    } else {
        let sv = StdView {
            trace_type: entry_str(e, "trace_type"@).unwrap(),
            gauge_name: entry_str(e, "gauge_name"@).unwrap(),
            field_name: entry_str(e, "field_name"@).unwrap(),
            description: entry_str(e, "description"@).unwrap(),
        };
        Ok(
            match kind {
                GaugeType::Simple => DefView::Simple(sv),
                GaugeType::CounterTotal => DefView::CounterTotal(sv),
                GaugeType::CounterRate => DefView::CounterRate(sv),
                GaugeType::ElapsedRate => DefView::ElapsedRate(sv),
            },
        )
    }
}

/// One histogram definition per percentile; a single percentile keeps the
/// configured name and description verbatim.
pub open spec fn spec_expand(
    g: Seq<char>,
    o: Seq<char>,
    ps: Seq<int>,
    nm: Seq<char>,
    ds: Seq<char>,
) -> Seq<DefView> {
    Seq::new(
        ps.len(),
        |i: int|
            DefView::Hist(
                HistView {
                    group: g,
                    op: o,
                    percentile: ps[i],
                    gauge_name: if ps.len() == 1 {
                        nm
                    } else {
                        nm + "_"@ + spec_percentile_suffix(ps[i])
                    },
                    description: if ps.len() == 1 {
                        ds
                    } else {
                        ds + " (p"@ + spec_percentile_display(ps[i]) + ")"@
                    },
                },
            ),
    )
}

/// A histogram entry: its four string keys, then a non-empty list of
/// percentiles within the unit interval, expanded one definition per
/// percentile.
pub open spec fn spec_hist_entry(e: Seq<PairView>) -> Result<Seq<DefView>, ErrView> {
    if entry_str(e, "group"@) is None {
        Err(ErrView::MissingKey("group"@))
    } else if entry_str(e, "op"@) is None {
        Err(ErrView::MissingKey("op"@))
    } else if entry_str(e, "gauge_name"@) is None {
        Err(ErrView::MissingKey("gauge_name"@))
    } else if entry_str(e, "description"@) is None {
        Err(ErrView::MissingKey("description"@))
    } else if entry_lookup(e, "percentiles"@) is None {
        Err(ErrView::MissingKey("percentiles"@))
    } else if spec_num_list(entry_lookup(e, "percentiles"@).unwrap()) is None {
        Err(ErrView::MissingKey("percentiles"@))
    } else {
        let ps = spec_num_list(entry_lookup(e, "percentiles"@).unwrap()).unwrap();
        if ps.len() == 0 {
            Err(ErrView::EmptyPercentiles)
        } else if exists|i: int| 0 <= i < ps.len() && !(0 <= #[trigger] ps[i] <= 1_000_000_000) {
            Err(ErrView::PercentileOutOfRange)
        } else {
            Ok(
                spec_expand(
                    entry_str(e, "group"@).unwrap(),
                    entry_str(e, "op"@).unwrap(),
                    ps,
                    entry_str(e, "gauge_name"@).unwrap(),
                    entry_str(e, "description"@).unwrap(),
                ),
            )
        }
    }
}

pub open spec fn spec_entries_std(kind: GaugeType, es: Seq<Seq<PairView>>) -> Result<
    Seq<DefView>,
    ErrView,
>
    decreases es.len(),
{
    if es.len() == 0 {
        Ok(Seq::empty())
    } else {
        match spec_entries_std(kind, es.drop_last()) {
            Ok(acc) => match spec_std_entry(kind, es.last()) {
                Ok(d) => Ok(acc.push(d)),
                Err(e) => Err(e),
            },
            Err(e) => Err(e),
        }
    }
}

pub open spec fn spec_entries_hist(es: Seq<Seq<PairView>>) -> Result<Seq<DefView>, ErrView>
    decreases es.len(),
{
    if es.len() == 0 {
        Ok(Seq::empty())
    } else {
        match spec_entries_hist(es.drop_last()) {
            Ok(acc) => match spec_hist_entry(es.last()) {
                Ok(ds) => Ok(acc + ds),
                Err(e) => Err(e),
            },
            Err(e) => Err(e),
        }
    }
}

/// Fold the sections, in order: histogram and standard sections must be
/// arrays and contribute their typed entries; other sections are skipped.
pub open spec fn spec_typed_sections(ss: Seq<SecView>) -> Result<Seq<DefView>, ErrView>
    decreases ss.len(),
{
    if ss.len() == 0 {
        Ok(Seq::empty())
    } else {
        match spec_typed_sections(ss.drop_last()) {
            Err(e) => Err(e),
            Ok(acc) => {
                let sec = ss.last();
                if sec.name == "histogram_percentile_gauge"@ {
                    if !sec.is_array {
                        Err(ErrView::NotArray(sec.name))
                    } else {
                        match spec_entries_hist(sec.entries) {
                            Ok(ds) => Ok(acc + ds),
                            Err(e) => Err(e),
                        }
                    }
                } else {
                    match spec_section_kind(sec.name) {
                        Some(kind) => if !sec.is_array {
                            Err(ErrView::NotArray(sec.name))
                        } else {
                            match spec_entries_std(kind, sec.entries) {
                                Ok(ds) => Ok(acc + ds),
                                Err(e) => Err(e),
                            }
                        },
                        None => Ok(acc),
                    }
                }
            },
        }
    }
}

/// The reading of a whole configuration text: blank text holds no
/// definitions; otherwise the lines are assembled into sections, the
/// sections typed in order, and at least one recognised section must
/// occur.
pub open spec fn spec_parse_config(text: Seq<char>) -> Result<Seq<DefView>, ErrView> {
    if config_blank(text) {
        Ok(Seq::empty())
    } else {
        match assemble_lines(crate::text::sep_tokens(text, '\n')) {
            Err(e) => Err(e),
            Ok((ss, cur)) => match spec_typed_sections(ss) {
                Err(e) => Err(e),
                Ok(ds) => if any_recognized_upto(ss, ss.len() as int) {
                    Ok(ds)
                } else {
                    Err(ErrView::NoRecognized)
                },
            },
        }
    }
}

// ---------------------------------------------------------------------
// Supporting lemmas for the reader.
// ---------------------------------------------------------------------

proof fn lemma_entry_lookup_skip(e: Seq<PairView>, k: Seq<char>, n: int)
    requires
        0 <= n <= e.len(),
        forall|j: int| 0 <= j < n ==> (#[trigger] e[j]).0 != k,
    ensures
        entry_lookup(e, k) == entry_lookup(e.skip(n), k),
    decreases n,
{
    if n == 0 {
        assert(e.skip(0) =~= e);
    } else {
        assert(e[0].0 != k);
        assert forall|j: int| 0 <= j < n - 1 implies (#[trigger] e.skip(1)[j]).0 != k by {
            assert(e.skip(1)[j] == e[j + 1]);
        }
        lemma_entry_lookup_skip(e.skip(1), k, n - 1);
        assert(e.skip(1).skip(n - 1) =~= e.skip(n));
    }
}

proof fn lemma_find_sec_skip(ss: Seq<SecView>, name: Seq<char>, n: int)
    requires
        0 <= n <= ss.len(),
        forall|j: int| 0 <= j < n ==> (#[trigger] ss[j]).name != name,
    ensures
        find_sec(ss, name) == n + find_sec(ss.skip(n), name),
    decreases n,
{
    if n == 0 {
        assert(ss.skip(0) =~= ss);
    } else {
        assert(ss[0].name != name);
        assert forall|j: int| 0 <= j < n - 1 implies (#[trigger] ss.skip(1)[j]).name != name by {
            assert(ss.skip(1)[j] == ss[j + 1]);
        }
        lemma_find_sec_skip(ss.skip(1), name, n - 1);
        assert(ss.skip(1).skip(n - 1) =~= ss.skip(n));
    }
}

proof fn lemma_assemble_err_persists(lines: Seq<Seq<char>>, k: int)
    requires
        0 <= k <= lines.len(),
        assemble_lines(lines.take(k)) is Err,
    ensures
        assemble_lines(lines) == assemble_lines(lines.take(k)),
    decreases lines.len(),
{
    if k == lines.len() {
        assert(lines.take(k) =~= lines);
    } else {
        assert(lines.drop_last().take(k) =~= lines.take(k));
        lemma_assemble_err_persists(lines.drop_last(), k);
    }
}

proof fn lemma_typed_err_persists(ss: Seq<SecView>, k: int)
    requires
        0 <= k <= ss.len(),
        spec_typed_sections(ss.take(k)) is Err,
    ensures
        spec_typed_sections(ss) == spec_typed_sections(ss.take(k)),
    decreases ss.len(),
{
    if k == ss.len() {
        assert(ss.take(k) =~= ss);
    } else {
        assert(ss.drop_last().take(k) =~= ss.take(k));
        lemma_typed_err_persists(ss.drop_last(), k);
    }
}

proof fn lemma_entries_std_err_persists(kind: GaugeType, es: Seq<Seq<PairView>>, k: int)
    requires
        0 <= k <= es.len(),
        spec_entries_std(kind, es.take(k)) is Err,
    ensures
        spec_entries_std(kind, es) == spec_entries_std(kind, es.take(k)),
    decreases es.len(),
{
    if k == es.len() {
        assert(es.take(k) =~= es);
    } else {
        assert(es.drop_last().take(k) =~= es.take(k));
        lemma_entries_std_err_persists(kind, es.drop_last(), k);
    }
}

proof fn lemma_entries_hist_err_persists(es: Seq<Seq<PairView>>, k: int)
    requires
        0 <= k <= es.len(),
        spec_entries_hist(es.take(k)) is Err,
    ensures
        spec_entries_hist(es) == spec_entries_hist(es.take(k)),
    decreases es.len(),
{
    if k == es.len() {
        assert(es.take(k) =~= es);
    } else {
        assert(es.drop_last().take(k) =~= es.take(k));
        lemma_entries_hist_err_persists(es.drop_last(), k);
    }
}

// ---------------------------------------------------------------------
// The executable reader.
// ---------------------------------------------------------------------

/// Read a quoted, escape-free string value.
#[verifier::loop_isolation(false)]
fn parse_quoted(t: &String) -> (r: Option<String>)
    ensures
        match r {
            Some(v) => spec_quoted_str(t@) == Some(v@),
            None => spec_quoted_str(t@) is None,
        },
{
    let n = t.as_str().unicode_len();
    if n < 2 || t.as_str().get_char(0) != '"' || t.as_str().get_char(n - 1) != '"' {
        return None;
    }
    let mut i: usize = 1;
    while i < n - 1
        invariant
            1 <= i <= n - 1,
            forall|j: int| 1 <= j < i ==> #[trigger] t@[j] != '"' && t@[j] != '\\',
        decreases n - i,
    {
        let c = t.as_str().get_char(i);
        if c == '"' || c == '\\' {
            return None;
        }
        i = i + 1;
    }
    let inner = t.as_str().substring_char(1, n - 1).to_owned();
    proof {
        assert(inner@ =~= t@.subrange(1, t@.len() - 1));
    }
    Some(inner)
}

pub open spec fn nums_view(v: Seq<i128>) -> Seq<int> {
    v.map(|i: int, x: i128| x as int)
}

/// Read a bracketed list of decimal numbers.
#[verifier::loop_isolation(false)]
fn parse_num_list(t: &String) -> (r: Option<Vec<i128>>)
    ensures
        match r {
            Some(v) => spec_num_list(t@) == Some(nums_view(v@)),
            None => spec_num_list(t@) is None,
        },
{
    let n = t.as_str().unicode_len();
    if n < 2 || t.as_str().get_char(0) != '[' || t.as_str().get_char(n - 1) != ']' {
        return None;
    }
    let inner = t.as_str().substring_char(1, n - 1).to_owned();
    proof {
        assert(inner@ =~= t@.subrange(1, t@.len() - 1));
    }
    if is_blank(inner.as_str()) {
        let empty: Vec<i128> = Vec::new();
        proof {
            assert(nums_view(empty@) =~= Seq::<int>::empty());
        }
        return Some(empty);
    }
    let parts = crate::text::split_char(inner.as_str(), ',');
    let ghost pv = crate::text::sep_tokens(inner@, ',');
    let m = parts.len();
    let mut nums: Vec<i128> = Vec::new();
    let mut k: usize = 0;
    while k < m
        invariant
            0 <= k <= m,
            nums@.len() == k,
            forall|i: int|
                0 <= i < k ==> fp_value_of(spec_trim(#[trigger] pv[i])) == Some(
                    nums_view(nums@)[i],
                ),
        decreases m - k,
    {
        let piece = trim_ws_str(parts[k].as_str());
        proof {
            assert(crate::text::strings_view(parts@)[k as int] == parts@[k as int]@);
        }
        match parse_fp(piece.as_str()) {
            Some(v) => {
                nums.push(v);
                proof {
                    assert(nums_view(nums@)[k as int] == v as int);
                }
            },
            None => {
                proof {
                    assert(fp_value_of(spec_trim(pv[k as int])) is None);
                }
                return None;
            },
        }
        k = k + 1;
    }
    proof {
        assert(spec_num_list(t@) == Some(Seq::new(pv.len(), |i: int| fp_value_of(spec_trim(pv[i])).unwrap())));
        assert(nums_view(nums@) =~= Seq::new(pv.len(), |i: int| fp_value_of(spec_trim(pv[i])).unwrap()));
    }
    Some(nums)
}

/// Position of the first `=`, if any.
#[verifier::loop_isolation(false)]
fn find_eq(s: &String) -> (r: Option<usize>)
    ensures
        match r {
            Some(i) => i < s@.len() && first_sep(s@, '=') == i,
            None => first_sep(s@, '=') == s@.len(),
        },
{
    let n = s.as_str().unicode_len();
    let mut i: usize = 0;
    while i < n
        invariant
            0 <= i <= n,
            forall|j: int| 0 <= j < i ==> #[trigger] s@[j] != '=',
        decreases n - i,
    {
        if s.as_str().get_char(i) == '=' {
            proof {
                crate::text::lemma_no_sep_prefix(s@, i as int, '=');
                crate::text::lemma_first_sep_bounds(s@, '=');
            }
            return Some(i);
        }
        i = i + 1;
    }
    proof {
        crate::text::lemma_no_sep_prefix(s@, n as int, '=');
        crate::text::lemma_first_sep_bounds(s@, '=');
    }
    None
}

/// Find a section by name: the first match.
#[verifier::loop_isolation(false)]
fn find_section(sections: &Vec<RawSection>, name: &String) -> (r: Option<usize>)
    ensures
        match r {
            Some(i) => i < sections@.len() && find_sec(secs_view(sections@), name@) == i,
            None => find_sec(secs_view(sections@), name@) == sections@.len(),
        },
{
    let n = sections.len();
    let ghost sv = secs_view(sections@);
    let mut i: usize = 0;
    while i < n
        invariant
            0 <= i <= n,
            forall|j: int| 0 <= j < i ==> (#[trigger] sv[j]).name != name@,
        decreases n - i,
    {
        if str_eq(sections[i].name.as_str(), name.as_str()) {
            proof {
                lemma_find_sec_skip(sv, name@, i as int);
                assert(sv.skip(i as int)[0] == sv[i as int]);
            }
            return Some(i);
        }
        proof {
            assert(sv[i as int].name == sections@[i as int].name@);
        }
        i = i + 1;
    }
    proof {
        lemma_find_sec_skip(sv, name@, n as int);
        assert(sv.skip(n as int) =~= Seq::<SecView>::empty());
    }
    None
}

/// The raw text of the first pair under a key.
#[verifier::loop_isolation(false)]
fn entry_find(entry: &ConfigEntry, key: &str) -> (r: Option<String>)
    ensures
        match r {
            Some(v) => entry_lookup(labels_view(entry@), key@) == Some(v@),
            None => entry_lookup(labels_view(entry@), key@) is None,
        },
{
    let n = entry.len();
    let ghost ev = labels_view(entry@);
    let mut i: usize = 0;
    while i < n
        invariant
            0 <= i <= n,
            forall|j: int| 0 <= j < i ==> (#[trigger] ev[j]).0 != key@,
        decreases n - i,
    {
        if str_eq(entry[i].0.as_str(), key) {
            proof {
                lemma_entry_lookup_skip(ev, key@, i as int);
                assert(ev.skip(i as int)[0] == ev[i as int]);
            }
            return Some(entry[i].1.clone());
        }
        proof {
            assert(ev[i as int].0 == entry@[i as int].0@);
        }
        i = i + 1;
    }
    proof {
        lemma_entry_lookup_skip(ev, key@, n as int);
        assert(ev.skip(n as int) =~= Seq::<PairView>::empty());
    }
    None
}

/// The string value under a key, when present and quoted.
fn entry_get_str(entry: &ConfigEntry, key: &str) -> (r: Option<String>)
    ensures
        match r {
            Some(v) => entry_str(labels_view(entry@), key@) == Some(v@),
            None => entry_str(labels_view(entry@), key@) is None,
        },
{
    match entry_find(entry, key) {
        Some(raw) => parse_quoted(&raw),
        None => None,
    }
}

/// Read one standard section entry.
fn typed_std_entry(kind: GaugeType, entry: &ConfigEntry) -> (r: Result<
    GaugeDefinition,
    ConfigError,
>)
    ensures
        match r {
            Ok(d) => spec_std_entry(kind, labels_view(entry@)) == Ok::<_, ErrView>(def_view(d)),
            Err(e) => spec_std_entry(kind, labels_view(entry@)) == Err::<DefView, _>(err_view(e)),
        },
{
    let trace_type = match entry_get_str(entry, "trace_type") {
        Some(v) => v,
        None => {
            return Err(ConfigError::MissingKey(String::from_str("trace_type")));
        },
    };
    let gauge_name = match entry_get_str(entry, "gauge_name") {
        Some(v) => v,
        None => {
            return Err(ConfigError::MissingKey(String::from_str("gauge_name")));
        },
    };
    let field_name = match entry_get_str(entry, "field_name") {
        Some(v) => v,
        None => {
            return Err(ConfigError::MissingKey(String::from_str("field_name")));
        },
    };
    let description = match entry_get_str(entry, "description") {
        Some(v) => v,
        None => {
            return Err(ConfigError::MissingKey(String::from_str("description")));
        },
    };
    let standard = StandardGaugeDefinition { trace_type, gauge_name, field_name, description };
    Ok(
        match kind {
            GaugeType::Simple => GaugeDefinition::Simple(standard),
            GaugeType::CounterTotal => GaugeDefinition::CounterTotal(standard),
            GaugeType::CounterRate => GaugeDefinition::CounterRate(standard),
            GaugeType::ElapsedRate => GaugeDefinition::ElapsedRate(standard),
        },
    )
}

/// Read one histogram section entry and expand its percentiles.
#[verifier::loop_isolation(false)]
fn typed_hist_entry(entry: &ConfigEntry) -> (r: Result<Vec<GaugeDefinition>, ConfigError>)
    ensures
        match r {
            Ok(ds) => spec_hist_entry(labels_view(entry@)) == Ok::<_, ErrView>(defs_view(ds@))
                && defs_valid(ds@),
            Err(e) => spec_hist_entry(labels_view(entry@)) == Err::<Seq<DefView>, _>(err_view(e)),
        },
{
    let group = match entry_get_str(entry, "group") {
        Some(v) => v,
        None => {
            return Err(ConfigError::MissingKey(String::from_str("group")));
        },
    };
    let op = match entry_get_str(entry, "op") {
        Some(v) => v,
        None => {
            return Err(ConfigError::MissingKey(String::from_str("op")));
        },
    };
    let gauge_name = match entry_get_str(entry, "gauge_name") {
        Some(v) => v,
        None => {
            return Err(ConfigError::MissingKey(String::from_str("gauge_name")));
        },
    };
    let description = match entry_get_str(entry, "description") {
        Some(v) => v,
        None => {
            return Err(ConfigError::MissingKey(String::from_str("description")));
        },
    };
    let raw = match entry_find(entry, "percentiles") {
        Some(v) => v,
        None => {
            return Err(ConfigError::MissingKey(String::from_str("percentiles")));
        },
    };
    let nums = match parse_num_list(&raw) {
        Some(v) => v,
        None => {
            return Err(ConfigError::MissingKey(String::from_str("percentiles")));
        },
    };
    if nums.len() == 0 {
        return Err(ConfigError::EmptyPercentiles);
    }
    let rn = nums.len();
    let mut ps: Vec<i64> = Vec::new();
    let mut ri: usize = 0;
    while ri < rn
        invariant
            0 <= ri <= rn,
            ps@.len() == ri,
            forall|j: int| 0 <= j < ri ==> 0 <= #[trigger] nums@[j] <= 1_000_000_000,
            forall|j: int| 0 <= j < ri ==> #[trigger] ps@[j] == nums@[j],
        decreases rn - ri,
    {
        let v = nums[ri];
        if v < 0 || v > 1_000_000_000 {
            proof {
                assert(!(0 <= nums_view(nums@)[ri as int] <= 1_000_000_000));
            }
            return Err(ConfigError::PercentileOutOfRange);
        }
        ps.push(v as i64);
        ri = ri + 1;
    }
    let expanded = expand_histogram_entry(&group, &op, &ps, &gauge_name, &description);
    proof {
        let pv = nums_view(nums@);
        assert forall|i: int| 0 <= i < pv.len() implies 0 <= #[trigger] pv[i] <= 1_000_000_000 by {
            assert(nums@[i] == ps@[i]);
        }
        assert(defs_view(expanded@) =~= spec_expand(group@, op@, pv, gauge_name@, description@))
            by {
            assert forall|i: int| 0 <= i < expanded@.len() implies #[trigger] defs_view(expanded@)[i]
                == spec_expand(group@, op@, pv, gauge_name@, description@)[i] by {
                assert(ps@[i] as int == pv[i]);
            }
        }
        assert(defs_valid(expanded@));
    }
    Ok(expanded)
}

/// Append definitions in order.
fn append_defs(gauges: &mut Vec<GaugeDefinition>, ds: Vec<GaugeDefinition>)
    ensures
        final(gauges)@ == old(gauges)@ + ds@,
{
    let ghost dsv = ds@;
    let mut rest = ds;
    let ghost mut moved: int = 0;
    let ghost base = gauges@;
    while rest.len() > 0
        invariant
            0 <= moved <= dsv.len(),
            moved + rest@.len() == dsv.len(),
            forall|j: int| 0 <= j < rest@.len() ==> #[trigger] rest@[j] == dsv[moved + j],
            gauges@ == base + dsv.take(moved),
        decreases rest@.len(),
    {
        let ghost old_rest = rest@;
        let d = rest.remove(0);
        gauges.push(d);
        proof {
            assert(d == old_rest[0]);
            assert(d == dsv[moved]);
            assert forall|j: int| 0 <= j < rest@.len() implies #[trigger] rest@[j] == dsv[(moved + 1)
                + j] by {
                assert(rest@[j] == old_rest[j + 1]);
            }
            assert(dsv.take(moved + 1) =~= dsv.take(moved).push(dsv[moved]));
            assert(gauges@ =~= base + dsv.take(moved + 1));
            moved = moved + 1;
        }
    }
    proof {
        assert(dsv.take(dsv.len() as int) =~= dsv);
    }
}

/// Expand one histogram section entry: one definition per percentile.
/// With a single percentile the configured name and description are used
/// verbatim; with several, each name gains `_p{percent}` (dots as
/// underscores, trailing zeros trimmed) and each description gains
/// ` (p{percent})`.
pub fn expand_histogram_entry(
    group: &String,
    op: &String,
    percentiles: &Vec<i64>,
    base_name: &String,
    base_desc: &String,
) -> (r: Vec<GaugeDefinition>)
    requires
        forall|k: int| 0 <= k < percentiles@.len() ==> 0 <= #[trigger] percentiles@[k] <= 1_000_000_000,
    ensures
        r@.len() == percentiles@.len(),
        forall|k: int|
            0 <= k < r@.len() ==> (#[trigger] r@[k] matches GaugeDefinition::HistogramPercentile(h)
                && h.group@ == group@ && h.op@ == op@ && h.percentile == percentiles@[k] && (if
            percentiles@.len() == 1 {
                h.gauge_name@ == base_name@ && h.description@ == base_desc@
            } else {
                h.gauge_name@ == base_name@ + "_"@ + spec_percentile_suffix(percentiles@[k] as int)
                    && h.description@ == base_desc@ + " (p"@ + spec_percentile_display(
                    percentiles@[k] as int,
                ) + ")"@
            })),
{
    let total = percentiles.len();
    let mut out: Vec<GaugeDefinition> = Vec::new();
    let mut k: usize = 0;
    while k < total
        invariant
            0 <= k <= total,
            total == percentiles@.len(),
            out@.len() == k,
            forall|j: int| 0 <= j < total ==> 0 <= #[trigger] percentiles@[j] <= 1_000_000_000,
            forall|j: int|
                0 <= j < k ==> (#[trigger] out@[j] matches GaugeDefinition::HistogramPercentile(h)
                    && h.group@ == group@ && h.op@ == op@ && h.percentile == percentiles@[j] && (if
                total == 1 {
                    h.gauge_name@ == base_name@ && h.description@ == base_desc@
                } else {
                    h.gauge_name@ == base_name@ + "_"@ + spec_percentile_suffix(
                        percentiles@[j] as int,
                    ) && h.description@ == base_desc@ + " (p"@ + spec_percentile_display(
                        percentiles@[j] as int,
                    ) + ")"@
                })),
        decreases total - k,
    {
        let p = percentiles[k];
        let gauge_name = if total == 1 {
            base_name.clone()
        } else {
            let suffix = percentile_suffix(p);
            let r = base_name.clone().concat("_").concat(suffix.as_str());
            proof {
                reveal_strlit("_");
            }
            r
        };
        let description = if total == 1 {
            base_desc.clone()
        } else {
            let disp = percentile_display(p);
            let r = base_desc.clone().concat(" (p").concat(disp.as_str()).concat(")");
            proof {
                reveal_strlit(" (p");
                reveal_strlit(")");
            }
            r
        };
        out.push(
            GaugeDefinition::HistogramPercentile(
                HistogramPercentileGaugeDefinition {
                    group: group.clone(),
                    op: op.clone(),
                    percentile: p,
                    gauge_name,
                    description,
                },
            ),
        );
        k = k + 1;
    }
    out
}

/// Read the configuration text into recorder definitions: exactly the
/// reading given by [`spec_parse_config`]. A whitespace-only text yields
/// no definitions. Otherwise the text must hold at least one recognised
/// section; a recognised section must be an array of tables; standard
/// entries need their four quoted string keys; histogram entries need
/// their string keys and a non-empty `percentiles` list whose members lie
/// in `[0, 1]`, and expand one definition per percentile. Unrecognised
/// sections are skipped whole, whatever their values hold.
#[verifier::loop_isolation(false)]
#[verifier::rlimit(90)]
pub fn parse_gauge_config(text: &str) -> (r: Result<Vec<GaugeDefinition>, ConfigError>)
    ensures
        match spec_parse_config(text@) {
            Ok(ds) => r matches Ok(d) && defs_view(d@) == ds,
            Err(e) => r matches Err(err) && err_view(err) == e,
        },
        r matches Ok(d) ==> defs_valid(d@),
{
    if is_blank(text) {
        let empty: Vec<GaugeDefinition> = Vec::new();
        proof {
            assert(defs_view(empty@) =~= Seq::<DefView>::empty());
        }
        return Ok(empty);
    }
    let lines = crate::text::split_char(text, '\n');
    let ghost lseq = crate::text::sep_tokens(text@, '\n');
    let mut sections: Vec<RawSection> = Vec::new();
    let mut cursor = Cursor::Outside;
    let ln = lines.len();
    proof {
        assert(lseq.take(0) =~= Seq::<Seq<char>>::empty());
        assert(secs_view(sections@) =~= Seq::<SecView>::empty());
    }
    let mut li: usize = 0;
    while li < ln
        invariant
            0 <= li <= ln,
            ln == lseq.len(),
            crate::text::strings_view(lines@) == lseq,
            assemble_lines(lseq.take(li as int)) == Ok::<(Seq<SecView>, CursorView), ErrView>(
                (secs_view(sections@), cursor_view(cursor)),
            ),
        decreases ln - li,
    {
        let ghost lv = classify_line(lseq[li as int]);
        proof {
            assert(lseq.take(li + 1).drop_last() =~= lseq.take(li as int));
            assert(lseq.take(li + 1).last() == lseq[li as int]);
            assert(lines@[li as int]@ == lseq[li as int]);
        }
        let line = trim_ws_str(lines[li].as_str());
        let n = line.as_str().unicode_len();
        if n == 0 || line.as_str().get_char(0) == '#' {
            proof {
                assert(lv == LineView::Blank);
            }
            li = li + 1;
            continue ;
        }
        proof {
            reveal_strlit("[[");
            reveal_strlit("]]");
        }
        if n >= 4 && str_starts_with(line.as_str(), "[[") && str_ends_with(line.as_str(), "]]") {
            let name = trim_ws_str(line.as_str().substring_char(2, n - 2));
            proof {
                assert(line@.subrange(2, line@.len() - 2) =~= line@.subrange(2, n - 2));
                assert(lv == LineView::ArrayHeader(name@, line@));
            }
            match find_section(&sections, &name) {
                Some(i) => {
                    if !sections[i].is_array {
                        proof {
                            assert(assemble_lines(lseq.take(li + 1)) == Err::<
                                (Seq<SecView>, CursorView),
                                _,
                            >(ErrView::Unreadable(line@)));
                            lemma_assemble_err_persists(lseq, li + 1);
                        }
                        return Err(ConfigError::MalformedLine(line));
                    }
                    let ghost sv0 = secs_view(sections@);
                    let mut sec = sections.remove(i);
                    sec.entries.push(Vec::new());
                    sections.insert(i, sec);
                    cursor = Cursor::InEntry(i);
                    proof {
                        assert(secs_view(sections@) =~~= sv0.update(
                            i as int,
                            SecView {
                                name: sv0[i as int].name,
                                is_array: true,
                                entries: sv0[i as int].entries.push(Seq::empty()),
                            },
                        ));
                    }
                },
                None => {
                    let idx = sections.len();
                    let ghost sv0 = secs_view(sections@);
                    let mut entries: Vec<ConfigEntry> = Vec::new();
                    entries.push(Vec::new());
                    sections.push(RawSection { name: name.clone(), is_array: true, entries });
                    cursor = Cursor::InEntry(idx);
                    proof {
                        assert(secs_view(sections@) =~~= sv0.push(
                            SecView {
                                name: name@,
                                is_array: true,
                                entries: seq![Seq::<PairView>::empty()],
                            },
                        ));
                    }
                },
            }
            li = li + 1;
            continue ;
        }
        if n >= 2 && line.as_str().get_char(0) == '[' && line.as_str().get_char(n - 1) == ']' {
            let name = trim_ws_str(line.as_str().substring_char(1, n - 1));
            proof {
                assert(line@.subrange(1, line@.len() - 1) =~= line@.subrange(1, n - 1));
                assert(lv == LineView::TableHeader(name@, line@));
            }
            match find_section(&sections, &name) {
                Some(i) => {
                    if sections[i].is_array {
                        proof {
                            assert(assemble_lines(lseq.take(li + 1)) == Err::<
                                (Seq<SecView>, CursorView),
                                _,
                            >(ErrView::Unreadable(line@)));
                            lemma_assemble_err_persists(lseq, li + 1);
                        }
                        return Err(ConfigError::MalformedLine(line));
                    }
                    cursor = Cursor::InTable;
                },
                None => {
                    let ghost sv0 = secs_view(sections@);
                    sections.push(
                        RawSection { name: name.clone(), is_array: false, entries: Vec::new() },
                    );
                    cursor = Cursor::InTable;
                    proof {
                        assert(secs_view(sections@) =~~= sv0.push(
                            SecView { name: name@, is_array: false, entries: Seq::empty() },
                        ));
                    }
                },
            }
            li = li + 1;
            continue ;
        }
        match find_eq(&line) {
            Some(eqpos) => {
                let key = trim_ws_str(line.as_str().substring_char(0, eqpos));
                if key.as_str().unicode_len() == 0 {
                    proof {
                        assert(line@.subrange(0, eqpos as int) =~= line@.take(eqpos as int));
                        assert(lv == LineView::Unreadable(line@));
                        assert(assemble_lines(lseq.take(li + 1)) == Err::<
                            (Seq<SecView>, CursorView),
                            _,
                        >(ErrView::Unreadable(line@)));
                        lemma_assemble_err_persists(lseq, li + 1);
                    }
                    return Err(ConfigError::MalformedLine(line));
                }
                let vtext = trim_ws_str(line.as_str().substring_char(eqpos + 1, n));
                let ghost kv = key@;
                let ghost vv = vtext@;
                proof {
                    assert(line@.subrange(0, eqpos as int) =~= line@.take(eqpos as int));
                    assert(line@.subrange(eqpos + 1, n as int) =~= line@.skip(eqpos + 1));
                    assert(lv == LineView::KeyVal(kv, vv));
                }
                let in_entry = match &cursor {
                    Cursor::InEntry(idx) => Some(*idx),
                    _ => None,
                };
                match in_entry {
                    Some(idx) => {
                        if idx < sections.len() {
                            let ghost sv0 = secs_view(sections@);
                            let mut sec = sections.remove(idx);
                            let m = sec.entries.len();
                            if m > 0 {
                                let ghost e0 = sec.entries@;
                                let mut entry = sec.entries.remove(m - 1);
                                entry.push((key, vtext));
                                sec.entries.push(entry);
                                proof {
                                    assert(sec.entries@ =~= e0.update(m - 1, sec.entries@.last()));
                                    assert(labels_view(sec.entries@.last()@) =~= labels_view(
                                        e0.last()@,
                                    ).push((kv, vv)));
                                }
                            }
                            sections.insert(idx, sec);
                            proof {
                                if m > 0 {
                                    assert(secs_view(sections@) =~~= sv0.update(
                                        idx as int,
                                        SecView {
                                            name: sv0[idx as int].name,
                                            is_array: sv0[idx as int].is_array,
                                            entries: sv0[idx as int].entries.update(
                                                sv0[idx as int].entries.len() - 1,
                                                sv0[idx as int].entries.last().push((kv, vv)),
                                            ),
                                        },
                                    ));
                                } else {
                                    assert(secs_view(sections@) =~~= sv0);
                                }
                            }
                        }
                    },
                    None => {},
                }
            },
            None => {
                proof {
                    assert(lv == LineView::Unreadable(line@));
                    assert(assemble_lines(lseq.take(li + 1)) == Err::<
                        (Seq<SecView>, CursorView),
                        _,
                    >(ErrView::Unreadable(line@)));
                    lemma_assemble_err_persists(lseq, li + 1);
                }
                return Err(ConfigError::MalformedLine(line));
            },
        }
        li = li + 1;
    }
    let ghost sv_all = secs_view(sections@);
    proof {
        assert(lseq.take(ln as int) =~= lseq);
        assert(assemble_lines(lseq) == Ok::<(Seq<SecView>, CursorView), ErrView>(
            (sv_all, cursor_view(cursor)),
        ));
    }
    typed_pass(&sections)
}

/// Type the assembled sections, in file order, and require that at least
/// one recognised section occurred.
#[verifier::loop_isolation(false)]
#[verifier::rlimit(60)]
fn typed_pass(sections: &Vec<RawSection>) -> (r: Result<Vec<GaugeDefinition>, ConfigError>)
    ensures
        ({
            let sv = secs_view(sections@);
            match spec_typed_sections(sv) {
                Err(e) => r matches Err(err) && err_view(err) == e,
                Ok(ds) => if any_recognized_upto(sv, sv.len() as int) {
                    r matches Ok(d) && defs_view(d@) == ds && defs_valid(d@)
                } else {
                    r matches Err(err) && err_view(err) == ErrView::NoRecognized
                },
            }
        }),
{
    let ghost sv_all = secs_view(sections@);
    // Typed pass, section by section, in file order.
    let mut gauges: Vec<GaugeDefinition> = Vec::new();
    let mut recognized_any = false;
    let sn = sections.len();
    proof {
        assert(sv_all.take(0) =~= Seq::<SecView>::empty());
        assert(defs_view(gauges@) =~= Seq::<DefView>::empty());
    }
    let mut si: usize = 0;
    while si < sn
        invariant
            0 <= si <= sn,
            sn == sections@.len(),
            secs_view(sections@) == sv_all,
            sv_all.len() == sn,
            spec_typed_sections(sv_all.take(si as int)) == Ok::<Seq<DefView>, ErrView>(
                defs_view(gauges@),
            ),
            recognized_any == any_recognized_upto(sv_all, si as int),
            defs_valid(gauges@),
        decreases sn - si,
    {
        let ghost sec_v = sv_all[si as int];
        proof {
            assert(sv_all.take(si + 1).drop_last() =~= sv_all.take(si as int));
            assert(sv_all.take(si + 1).last() == sec_v);
            assert(sec_v.name == sections@[si as int].name@);
            assert(sec_v.is_array == sections@[si as int].is_array);
        }
        let is_hist = str_eq(sections[si].name.as_str(), "histogram_percentile_gauge");
        if is_hist {
            let ghost was = recognized_any;
            recognized_any = true;
            proof {
                assert(spec_recognized(sec_v.name));
                assert(any_recognized_upto(sv_all, si + 1));
            }
            if !sections[si].is_array {
                proof {
                    assert(spec_typed_sections(sv_all.take(si + 1)) == Err::<Seq<DefView>, _>(
                        ErrView::NotArray(sec_v.name),
                    ));
                    lemma_typed_err_persists(sv_all, si + 1);
                }
                return Err(ConfigError::SectionNotArray(sections[si].name.clone()));
            }
            let en = sections[si].entries.len();
            let ghost esv = sec_v.entries;
            let ghost base_defs = defs_view(gauges@);
            proof {
                assert(esv.len() == en);
                assert(esv.take(0) =~= Seq::<Seq<PairView>>::empty());
                assert(base_defs + Seq::<DefView>::empty() =~= base_defs);
            }
            let mut ei: usize = 0;
            while ei < en
                invariant
                    0 <= ei <= en,
                    si < sn == sections@.len(),
                    secs_view(sections@) == sv_all,
                    sv_all.len() == sn,
                    esv == sv_all[si as int].entries,
                    en == esv.len(),
                    (spec_entries_hist(esv.take(ei as int)) matches Ok(ds2) && defs_view(gauges@)
                        == base_defs + ds2),
                    defs_valid(gauges@),
                decreases en - ei,
            {
                proof {
                    assert(esv.take(ei + 1).drop_last() =~= esv.take(ei as int));
                    assert(esv.take(ei + 1).last() == esv[ei as int]);
                    assert(esv[ei as int] == labels_view(
                        sections@[si as int].entries@[ei as int]@,
                    ));
                }
                match typed_hist_entry(&sections[si].entries[ei]) {
                    Ok(ds) => {
                        let ghost dsv2 = defs_view(ds@);
                        let ghost g0 = defs_view(gauges@);
                        let ghost dvalid = defs_valid(ds@);
                        let ghost gn = gauges@.len();
                        let ghost dn = ds@.len();
                        append_defs(&mut gauges, ds);
                        proof {
                            assert(defs_view(gauges@) =~= g0 + dsv2);
                            assert(g0 + dsv2 =~= base_defs + (spec_entries_hist(
                                esv.take(ei as int),
                            )->Ok_0 + dsv2));
                            assert forall|j: int| 0 <= j < gauges@.len() implies match #[trigger] gauges@[j] {
                                GaugeDefinition::HistogramPercentile(h) => 0 <= h.percentile
                                    <= 1_000_000_000,
                                _ => true,
                            } by {
                                if j < gn {
                                } else {
                                    assert(gauges@[j] == gauges@.subrange(
                                        gn as int,
                                        gauges@.len() as int,
                                    )[j - gn]);
                                }
                            }
                        }
                    },
                    Err(e) => {
                        proof {
                            assert(spec_entries_hist(esv.take(ei + 1)) == Err::<Seq<DefView>, _>(
                                err_view(e),
                            ));
                            lemma_entries_hist_err_persists(esv, ei + 1);
                            assert(spec_typed_sections(sv_all.take(si + 1)) == Err::<
                                Seq<DefView>,
                                _,
                            >(err_view(e)));
                            lemma_typed_err_persists(sv_all, si + 1);
                        }
                        return Err(e);
                    },
                }
                ei = ei + 1;
            }
            proof {
                assert(esv.take(en as int) =~= esv);
            }
        } else {
            let kind_opt = GaugeType::from_section_name(sections[si].name.as_str());
            proof {
                assert(spec_section_kind(sec_v.name) == kind_opt);
            }
            match kind_opt {
                Some(kind) => {
                    recognized_any = true;
                    proof {
                        assert(spec_recognized(sec_v.name));
                        assert(any_recognized_upto(sv_all, si + 1));
                    }
                    if !sections[si].is_array {
                        proof {
                            assert(spec_typed_sections(sv_all.take(si + 1)) == Err::<
                                Seq<DefView>,
                                _,
                            >(ErrView::NotArray(sec_v.name)));
                            lemma_typed_err_persists(sv_all, si + 1);
                        }
                        return Err(ConfigError::SectionNotArray(sections[si].name.clone()));
                    }
                    let en = sections[si].entries.len();
                    let ghost esv = sec_v.entries;
                    let ghost base_defs = defs_view(gauges@);
                    proof {
                        assert(esv.len() == en);
                        assert(esv.take(0) =~= Seq::<Seq<PairView>>::empty());
                        assert(base_defs + Seq::<DefView>::empty() =~= base_defs);
                    }
                    let mut ei: usize = 0;
                    while ei < en
                        invariant
                            0 <= ei <= en,
                            si < sn == sections@.len(),
                            secs_view(sections@) == sv_all,
                            sv_all.len() == sn,
                            esv == sv_all[si as int].entries,
                            en == esv.len(),
                            (spec_entries_std(kind, esv.take(ei as int)) matches Ok(ds2)
                                && defs_view(gauges@) == base_defs + ds2),
                            defs_valid(gauges@),
                        decreases en - ei,
                    {
                        proof {
                            assert(esv.take(ei + 1).drop_last() =~= esv.take(ei as int));
                            assert(esv.take(ei + 1).last() == esv[ei as int]);
                            assert(esv[ei as int] == labels_view(
                                sections@[si as int].entries@[ei as int]@,
                            ));
                        }
                        match typed_std_entry(kind, &sections[si].entries[ei]) {
                            Ok(d) => {
                                let ghost g0 = defs_view(gauges@);
                                let ghost dv = def_view(d);
                                let ghost gn = gauges@.len();
                                gauges.push(d);
                                proof {
                                    assert(defs_view(gauges@) =~= g0.push(dv));
                                    assert(g0.push(dv) =~= base_defs + spec_entries_std(
                                        kind,
                                        esv.take(ei as int),
                                    )->Ok_0.push(dv));
                                    assert forall|j: int|
                                        0 <= j < gauges@.len() implies match #[trigger] gauges@[j] {
                                        GaugeDefinition::HistogramPercentile(h) => 0 <= h.percentile
                                            <= 1_000_000_000,
                                        _ => true,
                                    } by {
                                        if j < gn {
                                        } else {
                                            assert(gauges@[j] == gauges@.last());
                                            assert(def_view(gauges@[j]) == dv);
                                        }
                                    }
                                }
                            },
                            Err(e) => {
                                proof {
                                    assert(spec_entries_std(kind, esv.take(ei + 1)) == Err::<
                                        Seq<DefView>,
                                        _,
                                    >(err_view(e)));
                                    lemma_entries_std_err_persists(kind, esv, ei + 1);
                                    assert(spec_typed_sections(sv_all.take(si + 1)) == Err::<
                                        Seq<DefView>,
                                        _,
                                    >(err_view(e)));
                                    lemma_typed_err_persists(sv_all, si + 1);
                                }
                                return Err(e);
                            },
                        }
                        ei = ei + 1;
                    }
                    proof {
                        assert(esv.take(en as int) =~= esv);
                    }
                },
                None => {
                    proof {
                        assert(!spec_recognized(sec_v.name));
                        assert(any_recognized_upto(sv_all, si + 1) == any_recognized_upto(
                            sv_all,
                            si as int,
                        )) by {
                            if any_recognized_upto(sv_all, si + 1) {
                                let w = choose|i: int|
                                    0 <= i < si + 1 && spec_recognized(
                                        (#[trigger] sv_all[i]).name,
                                    );
                                if w < si {
                                    assert(any_recognized_upto(sv_all, si as int));
                                }
                            }
                        }
                    }
                },
            }
        }
        si = si + 1;
    }
    proof {
        assert(sv_all.take(sn as int) =~= sv_all);
    }
    if recognized_any {
        Ok(gauges)
    } else {
        Err(ConfigError::NoRecognizedSections)
    }
}

/// Which recorder a definition builds.
pub open spec fn recorder_of_def(d: GaugeDefinition, rec: Recorder) -> bool {
    match d {
        GaugeDefinition::Simple(s) => rec matches Recorder::Simple(g) && g.trace_type@
            == s.trace_type@ && g.field_name@ == s.field_name@ && g.gauge_name@ == s.gauge_name@
            && g.description@ == s.description@ && g.windows.hist_map() =~= Map::empty(),
        GaugeDefinition::CounterTotal(s) => rec matches Recorder::CounterTotal(g) && g.trace_type@
            == s.trace_type@ && g.field_name@ == s.field_name@ && g.gauge_name@ == s.gauge_name@
            && g.description@ == s.description@,
        GaugeDefinition::CounterRate(s) => rec matches Recorder::CounterRate(g) && g.trace_type@
            == s.trace_type@ && g.field_name@ == s.field_name@ && g.gauge_name@ == s.gauge_name@
            && g.description@ == s.description@ && g.windows.hist_map() =~= Map::empty(),
        GaugeDefinition::ElapsedRate(s) => rec matches Recorder::ElapsedRate(g) && g.trace_type@
            == s.trace_type@ && g.field_name@ == s.field_name@ && g.gauge_name@ == s.gauge_name@
            && g.description@ == s.description@ && g.windows.hist_map() =~= Map::empty(),
        GaugeDefinition::HistogramPercentile(h) => rec matches Recorder::HistogramPercentile(g)
            && g.group@ == h.group@ && g.op@ == h.op@ && g.percentile == h.percentile
            && g.gauge_name@ == h.gauge_name@ && g.description@ == h.description@,
    }
}

/// Build the registry from configured definitions, followed by the fixed
/// severity counters for severities 10, 20, 30 and 40.
pub fn build_registry(defs: Vec<GaugeDefinition>) -> (r: LogMetrics)
    requires
        defs_valid(defs@),
    ensures
        r.wf(),
        r.metrics@.len() == defs@.len() + 4,
        forall|i: int| 0 <= i < defs@.len() ==> recorder_of_def(defs@[i], #[trigger] r.metrics@[i]),
        forall|k: int|
            0 <= k < 4 ==> ((#[trigger] r.metrics@[defs@.len() + k]) matches Recorder::Severity(c)
                && c.severity == 10 * (k + 1)),
{
    let ghost dv = defs@;
    let mut metrics: Vec<Recorder> = Vec::new();
    let dn = defs.len();
    let mut rest = defs;
    let mut i: usize = 0;
    while i < dn
        invariant
            0 <= i <= dn,
            rest@.len() == dn - i,
            forall|j: int| 0 <= j < rest@.len() ==> rest@[j] == dv[i + j],
            dn == dv.len(),
            defs_valid(dv),
            metrics@.len() == i,
            forall|j: int| 0 <= j < i ==> recorder_of_def(dv[j], #[trigger] metrics@[j]),
            forall|j: int| 0 <= j < i ==> (#[trigger] metrics@[j]).wf(),
        decreases dn - i,
    {
        let d = rest.remove(0);
        let ghost d0 = d;
        proof {
            assert(d0 == dv[i as int]);
        }
        let rec = match d {
            GaugeDefinition::Simple(s) => Recorder::Simple(
                SimpleFDBGauge::new(s.trace_type, s.field_name, s.gauge_name, s.description),
            ),
            GaugeDefinition::CounterTotal(s) => Recorder::CounterTotal(
                TotalCounterFDBGauge::new(s.trace_type, s.field_name, s.gauge_name, s.description),
            ),
            GaugeDefinition::CounterRate(s) => Recorder::CounterRate(
                RateCounterFDBGauge::new(s.trace_type, s.field_name, s.gauge_name, s.description),
            ),
            GaugeDefinition::ElapsedRate(s) => Recorder::ElapsedRate(
                ElapsedRateFDBGauge::new(s.trace_type, s.field_name, s.gauge_name, s.description),
            ),
            GaugeDefinition::HistogramPercentile(h) => Recorder::HistogramPercentile(
                HistogramPercentileFDBGauge::new(
                    h.group,
                    h.op,
                    h.percentile,
                    h.gauge_name,
                    h.description,
                ),
            ),
        };
        let ghost m0 = metrics@;
        metrics.push(rec);
        proof {
            assert forall|j: int| 0 <= j < metrics@.len() implies recorder_of_def(
                dv[j],
                #[trigger] metrics@[j],
            ) && metrics@[j].wf() by {
                if j < metrics@.len() - 1 {
                    assert(metrics@[j] == m0[j]);
                }
            }
        }
        i = i + 1;
    }
    let ghost base = metrics@;
    metrics.push(Recorder::Severity(SevCounter::new(10)));
    metrics.push(Recorder::Severity(SevCounter::new(20)));
    metrics.push(Recorder::Severity(SevCounter::new(30)));
    metrics.push(Recorder::Severity(SevCounter::new(40)));
    proof {
        assert forall|j: int| 0 <= j < dv.len() implies recorder_of_def(
            dv[j],
            #[trigger] metrics@[j],
        ) by {
            assert(metrics@[j] == base[j]);
        }
        assert forall|j: int| 0 <= j < metrics@.len() implies (#[trigger] metrics@[j]).wf() by {
            if j < base.len() {
                assert(metrics@[j] == base[j]);
            }
        }
    }
    LogMetrics::from_metrics(metrics)
}

// ---------------------------------------------------------------------
// Rendering a normalised configuration.
// ---------------------------------------------------------------------

/// `n` rendered in exactly nine digits, zero-padded.
pub open spec fn nine_digits_of(n: nat) -> Seq<char> {
    zero_digits((9 - dec_digits_of(n).len()) as nat) + dec_digits_of(n)
}

/// The decimal text of a percentile: the unit fraction with up to nine
/// decimal places, trailing zeros stripped.
pub open spec fn spec_fraction_text(p: int) -> Seq<char> {
    let ip = dec_digits_of((p / 1_000_000_000) as nat);
    let fr = strip_zeros(nine_digits_of((p % 1_000_000_000) as nat));
    if fr.len() == 0 {
        ip
    } else {
        ip + seq!['.'] + fr
    }
}

/// One quoted `key = "value"` line.
pub open spec fn spec_quoted_line(key: Seq<char>, val: Seq<char>) -> Seq<char> {
    key + " = \""@ + val + "\"\n"@
}

pub open spec fn spec_render_standard(section: Seq<char>, d: StandardGaugeDefinition) -> Seq<
    char,
> {
    "[["@ + section + "]]\n"@ + spec_quoted_line("trace_type"@, d.trace_type@) + spec_quoted_line(
        "gauge_name"@,
        d.gauge_name@,
    ) + spec_quoted_line("field_name"@, d.field_name@) + spec_quoted_line(
        "description"@,
        d.description@,
    ) + "\n"@
}

pub open spec fn spec_render_def(d: GaugeDefinition) -> Seq<char> {
    match d {
        GaugeDefinition::Simple(s) => spec_render_standard("simple_gauge"@, s),
        GaugeDefinition::CounterTotal(s) => spec_render_standard("counter_total_gauge"@, s),
        GaugeDefinition::CounterRate(s) => spec_render_standard("counter_rate_gauge"@, s),
        GaugeDefinition::ElapsedRate(s) => spec_render_standard("elapsed_rate_gauge"@, s),
        GaugeDefinition::HistogramPercentile(h) => "[[histogram_percentile_gauge]]\n"@
            + spec_quoted_line("group"@, h.group@) + spec_quoted_line("op"@, h.op@)
            + "percentiles = ["@ + spec_fraction_text(h.percentile as int) + "]\n"@
            + spec_quoted_line("gauge_name"@, h.gauge_name@) + spec_quoted_line(
            "description"@,
            h.description@,
        ) + "\n"@,
    }
}

pub open spec fn spec_render_defs(defs: Seq<GaugeDefinition>) -> Seq<char>
    decreases defs.len(),
{
    if defs.len() == 0 {
        Seq::empty()
    } else {
        spec_render_defs(defs.drop_last()) + spec_render_def(defs.last())
    }
}

/// Render `n < 10^9` in nine digits, zero-padded.
fn nine_digit_string(n: u64) -> (r: String)
    requires
        n < 1_000_000_000,
    ensures
        r@ == nine_digits_of(n as nat),
{
    proof {
        crate::numbers::lemma_pow10_vals();
        lemma_dec_digits_len(n as nat, 9);
    }
    let digits = u64_to_string(n);
    let mut pad = String::new();
    let width: usize = 9 - digits.as_str().unicode_len();
    proof {
        assert(pad@ =~= zero_digits(0));
    }
    let mut made: usize = 0;
    while made < width
        invariant
            0 <= made <= width,
            pad@ == zero_digits(made as nat),
        decreases width - made,
    {
        proof {
            reveal_strlit("0");
        }
        pad.append("0");
        made = made + 1;
    }
    pad.concat(digits.as_str())
}

/// The decimal text of a percentile.
pub fn fraction_text(p: i64) -> (r: String)
    requires
        0 <= p <= 1_000_000_000,
    ensures
        r@ == spec_fraction_text(p as int),
{
    let ip = u64_to_string((p / 1_000_000_000) as u64);
    let frn = (p % 1_000_000_000) as u64;
    let fr9 = nine_digit_string(frn);
    let fr = strip_zero_string(&fr9);
    if fr.as_str().unicode_len() == 0 {
        proof {
            assert(ip@ =~= spec_fraction_text(p as int));
        }
        ip
    } else {
        proof {
            reveal_strlit(".");
        }
        let r = ip.concat(".").concat(fr.as_str());
        proof {
            assert("."@ =~= seq!['.']);
            assert(r@ =~= spec_fraction_text(p as int));
        }
        r
    }
}

fn quoted_line(key: &str, val: &String) -> (r: String)
    ensures
        r@ == spec_quoted_line(key@, val@),
{
    proof {
        reveal_strlit(" = \"");
        reveal_strlit("\"\n");
    }
    let r = String::from_str(key).concat(" = \"").concat(val.as_str()).concat("\"\n");
    proof {
        assert(r@ =~= spec_quoted_line(key@, val@));
    }
    r
}

fn render_standard(section: &str, d: &StandardGaugeDefinition) -> (r: String)
    ensures
        r@ == spec_render_standard(section@, *d),
{
    proof {
        reveal_strlit("[[");
        reveal_strlit("]]\n");
        reveal_strlit("\n");
    }
    let r = String::from_str("[[").concat(section).concat("]]\n").concat(
        quoted_line("trace_type", &d.trace_type).as_str(),
    ).concat(quoted_line("gauge_name", &d.gauge_name).as_str()).concat(
        quoted_line("field_name", &d.field_name).as_str(),
    ).concat(quoted_line("description", &d.description).as_str()).concat("\n");
    proof {
        assert(r@ =~= spec_render_standard(section@, *d));
    }
    r
}

/// Write a normalised configuration: one section per definition, in the
/// definitions' order, each histogram definition with its single
/// percentile. Reading the rendered text back yields the same
/// definitions, re-grouped in section name order.
pub fn render_gauge_config(defs: &Vec<GaugeDefinition>) -> (r: String)
    requires
        defs_valid(defs@),
    ensures
        r@ == spec_render_defs(defs@),
{
    let mut out = String::new();
    let n = defs.len();
    let mut i: usize = 0;
    proof {
        assert(out@ =~= spec_render_defs(defs@.take(0)));
    }
    while i < n
        invariant
            0 <= i <= n,
            n == defs@.len(),
            defs_valid(defs@),
            out@ == spec_render_defs(defs@.take(i as int)),
        decreases n - i,
    {
        let piece = match &defs[i] {
            GaugeDefinition::Simple(s) => render_standard("simple_gauge", s),
            GaugeDefinition::CounterTotal(s) => render_standard("counter_total_gauge", s),
            GaugeDefinition::CounterRate(s) => render_standard("counter_rate_gauge", s),
            GaugeDefinition::ElapsedRate(s) => render_standard("elapsed_rate_gauge", s),
            GaugeDefinition::HistogramPercentile(h) => {
                proof {
                    reveal_strlit("[[histogram_percentile_gauge]]\n");
                    reveal_strlit("percentiles = [");
                    reveal_strlit("]\n");
                    reveal_strlit("\n");
                    assert(defs@[i as int] matches GaugeDefinition::HistogramPercentile(hh)
                        && 0 <= hh.percentile <= 1_000_000_000);
                }
                let r = String::from_str("[[histogram_percentile_gauge]]\n").concat(
                    quoted_line("group", &h.group).as_str(),
                ).concat(quoted_line("op", &h.op).as_str()).concat("percentiles = [").concat(
                    fraction_text(h.percentile).as_str(),
                ).concat("]\n").concat(quoted_line("gauge_name", &h.gauge_name).as_str()).concat(
                    quoted_line("description", &h.description).as_str(),
                ).concat("\n");
                proof {
                    assert(r@ =~= spec_render_def(defs@[i as int]));
                }
                r
            },
        };
        proof {
            assert(piece@ == spec_render_def(defs@[i as int]));
            assert(defs@.take(i + 1).drop_last() =~= defs@.take(i as int));
            assert(defs@.take(i + 1).last() == defs@[i as int]);
        }
        out.append(piece.as_str());
        i = i + 1;
    }
    proof {
        assert(defs@.take(n as int) =~= defs@);
    }
    out
}

// ---------------------------------------------------------------------
// The percentile text reads back to the same value.
// ---------------------------------------------------------------------

proof fn lemma_zero_digits_facts(k: nat)
    ensures
        zero_digits(k).len() == k,
        crate::numbers::all_digits(zero_digits(k)),
        crate::numbers::digits_val(zero_digits(k)) == 0,
    decreases k,
{
    if k > 0 {
        lemma_zero_digits_facts((k - 1) as nat);
        let z = zero_digits(k);
        assert(z =~= zero_digits((k - 1) as nat).push('0'));
        assert(z.drop_last() =~= zero_digits((k - 1) as nat));
        assert(z.last() == '0');
    }
}

/// Stripping trailing zeros divides the value by the matching power of
/// ten, exactly.
proof fn lemma_strip_zeros_val(s: Seq<char>)
    requires
        crate::numbers::all_digits(s),
    ensures
        crate::numbers::all_digits(strip_zeros(s)),
        strip_zeros(s).len() <= s.len(),
        crate::numbers::digits_val(s) == crate::numbers::digits_val(strip_zeros(s))
            * crate::numbers::pow10((s.len() - strip_zeros(s).len()) as nat),
    decreases s.len(),
{
    if s.len() > 0 && s.last() == '0' {
        assert(crate::numbers::all_digits(s.drop_last()));
        lemma_strip_zeros_val(s.drop_last());
        let st = strip_zeros(s);
        assert(st == strip_zeros(s.drop_last()));
        let k = (s.len() - 1 - st.len()) as nat;
        assert(crate::numbers::digits_val(s) == crate::numbers::digits_val(s.drop_last()) * 10);
        assert(crate::numbers::digits_val(s.drop_last()) == crate::numbers::digits_val(st)
            * crate::numbers::pow10(k));
        assert((crate::numbers::digits_val(st) * crate::numbers::pow10(k)) * 10
            == crate::numbers::digits_val(st) * (10 * crate::numbers::pow10(k))) by (
            nonlinear_arith);
        assert(crate::numbers::pow10((k + 1) as nat) == 10 * crate::numbers::pow10(k));
    }
}

/// A digit string with a dot after its integer digits reads back as the
/// two parts: writing a percentile's decimal text and parsing it returns
/// exactly the written value, the verified half of the configuration
/// round trip.
pub proof fn lemma_fraction_text_round_trip(p: int)
    requires
        0 <= p <= 1_000_000_000,
    ensures
        crate::numbers::fp_value_of(spec_fraction_text(p)) == Some(p),
{
    crate::numbers::lemma_pow10_vals();
    let ipn = (p / 1_000_000_000) as nat;
    let frn = (p % 1_000_000_000) as nat;
    let ip = dec_digits_of(ipn);
    crate::numbers::lemma_dec_digits_val(ipn);
    crate::numbers::lemma_dec_digits_val(frn);
    let nine = nine_digits_of(frn);
    lemma_dec_digits_len(frn, 9);
    lemma_zero_digits_facts((9 - dec_digits_of(frn).len()) as nat);
    assert(crate::numbers::all_digits(nine)) by {
        assert(forall|i: int|
            0 <= i < nine.len() ==> #[trigger] nine[i] == if i < nine.len() - dec_digits_of(
                frn,
            ).len() {
                zero_digits((9 - dec_digits_of(frn).len()) as nat)[i]
            } else {
                dec_digits_of(frn)[i - (nine.len() - dec_digits_of(frn).len())]
            });
    }
    assert(nine.len() == 9);
    assert(crate::numbers::digits_val(nine) == frn) by {
        crate::numbers::lemma_digits_val_append(
            zero_digits((9 - dec_digits_of(frn).len()) as nat),
            dec_digits_of(frn),
        );
    }
    let fr = strip_zeros(nine);
    lemma_strip_zeros_val(nine);
    let k = (nine.len() - fr.len()) as nat;
    let text = spec_fraction_text(p);
    if fr.len() == 0 {
        // No decimals: the text is the integer digits alone.
        assert(crate::numbers::digits_val(Seq::<char>::empty()) == 0);
        assert(frn == 0);
        assert(text == ip);
        assert forall|j: int| 0 <= j < text.len() implies #[trigger] text[j] != '.' by {
            assert(crate::numbers::is_dec_digit(text[j]));
        }
        crate::numbers::lemma_first_dot_bounds(text);
        if crate::numbers::first_dot(text) < text.len() {
            assert(text[crate::numbers::first_dot(text)] == '.');
        }
        assert(crate::numbers::first_dot(text) == text.len());
        assert(text.take(text.len() as int) =~= text);
        assert(crate::numbers::frac9_val(Seq::<char>::empty()) == 0);
        assert(ipn * crate::numbers::pow10(9) + 0 == p);
    } else {
        assert(text == ip + seq!['.'] + fr);
        let d = ip.len() as int;
        assert forall|j: int| 0 <= j < d implies #[trigger] text[j] != '.' by {
            assert(text[j] == ip[j]);
            assert(crate::numbers::is_dec_digit(ip[j]));
        }
        assert(text[d] == '.');
        crate::numbers::lemma_first_dot_bounds(text);
        assert(crate::numbers::first_dot(text) >= d) by {
            if crate::numbers::first_dot(text) < d {
                assert(text[crate::numbers::first_dot(text)] == '.');
            }
        }
        assert(crate::numbers::first_dot(text) == d);
        assert(text.take(d) =~= ip);
        assert(text.skip(d + 1) =~= fr);
        assert(crate::numbers::frac9_val(fr) == frn) by {
            if fr.len() >= 9 {
                assert(fr.len() == 9);
                assert(fr.take(9) =~= fr);
                assert(crate::numbers::pow10(0) == 1);
                assert(crate::numbers::digits_val(fr) * 1 == crate::numbers::digits_val(fr)) by (
                    nonlinear_arith);
            } else {
                assert(crate::numbers::frac9_val(fr) == crate::numbers::digits_val(fr)
                    * crate::numbers::pow10((9 - fr.len()) as nat));
                assert(k == (9 - fr.len()) as nat);
            }
        }
        assert(ipn < crate::numbers::pow10(18));
        assert(ipn * crate::numbers::pow10(9) + frn == p);
    }
}

} // verus!
