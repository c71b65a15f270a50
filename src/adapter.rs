//! Adapters: benchmark-harness output in, canonical latency metrics out.
//!
//! The grammar of the libtest bench report is stated over `Seq<char>` as spec
//! functions that each take a position and return the position after what
//! they recognised (`None` where they fail). The executable parser follows
//! the same grammar and is proved to agree with it at every step.
use vstd::prelude::*;

verus! {

// ---------------------------------------------------------------------------
// Characters and primitive recognisers
// ---------------------------------------------------------------------------

pub open spec fn is_space(c: char) -> bool {
    c == ' ' || c == '\t'
}

pub open spec fn is_digit(c: char) -> bool {
    '0' <= c && c <= '9'
}

pub open spec fn digit_value(c: char) -> int {
    c as int - '0' as int
}

/// The first position at or after `i` that does not hold a space or a tab.
pub open spec fn spaces_end(s: Seq<char>, i: int) -> int
    decreases s.len() - i,
{
    if 0 <= i < s.len() && is_space(s[i]) {
        spaces_end(s, i + 1)
    } else {
        i
    }
}

/// The first position at or after `i` that does not hold an ASCII digit.
pub open spec fn digits_end(s: Seq<char>, i: int) -> int
    decreases s.len() - i,
{
    if 0 <= i < s.len() && is_digit(s[i]) {
        digits_end(s, i + 1)
    } else {
        i
    }
}

/// One or more spaces or tabs.
pub open spec fn space1(s: Seq<char>, i: int) -> Option<int> {
    if spaces_end(s, i) > i {
        Some(spaces_end(s, i))
    } else {
        None
    }
}

/// One or more ASCII digits.
pub open spec fn digit1(s: Seq<char>, i: int) -> Option<int> {
    if digits_end(s, i) > i {
        Some(digits_end(s, i))
    } else {
        None
    }
}

/// The literal text `t`.
pub open spec fn tag(s: Seq<char>, i: int, t: Seq<char>) -> Option<int> {
    if 0 <= i && i + t.len() <= s.len() && s.subrange(i, i + t.len()) == t {
        Some(i + t.len())
    } else {
        None
    }
}

/// A line ending: `\n` or `\r\n`.
pub open spec fn line_ending(s: Seq<char>, i: int) -> Option<int> {
    if 0 <= i < s.len() && s[i] == '\n' {
        Some(i + 1)
    } else if 0 <= i && i + 1 < s.len() && s[i] == '\r' && s[i + 1] == '\n' {
        Some(i + 2)
    } else {
        None
    }
}

/// The first position at or after `i` that holds `c`.
pub open spec fn find_char(s: Seq<char>, i: int, c: char) -> Option<int>
    decreases s.len() - i,
{
    if 0 <= i < s.len() {
        if s[i] == c {
            Some(i)
        } else {
            find_char(s, i + 1, c)
        }
    } else {
        None
    }
}

/// One or more characters up to (not including) the next `c`; fails where no
/// `c` follows.
pub open spec fn take_until1(s: Seq<char>, i: int, c: char) -> Option<int> {
    match find_char(s, i, c) {
        Some(j) => if j > i {
            Some(j)
        } else {
            None
        },
        None => None,
    }
}


// ---------------------------------------------------------------------------
// Numbers, units and the measured line
// ---------------------------------------------------------------------------

/// End of a number whose previous character was a digit: more digits, or a
/// grouping comma (the comma is consumed even where no digit follows it).
pub open spec fn number_rest_end(s: Seq<char>, j: int) -> int
    decreases s.len() - j,
{
    if 0 <= j < s.len() && is_digit(s[j]) {
        number_rest_end(s, j + 1)
    } else if 0 <= j < s.len() && s[j] == ',' {
        if j + 1 < s.len() && is_digit(s[j + 1]) {
            number_rest_end(s, j + 2)
        } else {
            j + 1
        }
    } else {
        j
    }
}

/// A number: groups of digits, each optionally followed by a comma.
pub open spec fn number(s: Seq<char>, i: int) -> Option<int> {
    if 0 <= i < s.len() && is_digit(s[i]) {
        Some(number_rest_end(s, i + 1))
    } else {
        None
    }
}

/// The decimal value of the digits of `t`, grouping separators dropped.
pub open spec fn grouped_value(t: Seq<char>) -> int
    decreases t.len(),
{
    if t.len() == 0 {
        0
    } else if is_digit(t.last()) {
        grouped_value(t.drop_last()) * 10 + digit_value(t.last())
    } else {
        grouped_value(t.drop_last())
    }
}

/// A unit of time as the harness abbreviates it.
#[derive(Clone, Copy, Debug, PartialEq, Eq, Structural)]
pub enum Units {
    Nano,
    Micro,
    Milli,
    Sec,
}

impl Units {
    /// Nanoseconds in one of this unit.
    pub open spec fn factor(self) -> int {
        match self {
            Units::Nano => 1,
            Units::Micro => 1_000,
            Units::Milli => 1_000_000,
            Units::Sec => 1_000_000_000,
        }
    }

    /// The unit that a time abbreviation names, if any.
    pub fn from_abbreviation(time: &str) -> (r: Option<Units>)
        ensures
            r == units_of(time@),
    {
        let cs = chars_of(time);
        assert(cs@.subrange(0, cs@.len() as int) =~= time@);
        units_in(&cs, 0, cs.len())
    }
}

pub open spec fn units_of(t: Seq<char>) -> Option<Units> {
    if t == "ns"@ {
        Some(Units::Nano)
    } else if t == "μs"@ {
        Some(Units::Micro)
    } else if t == "ms"@ {
        Some(Units::Milli)
    } else if t == "s"@ {
        Some(Units::Sec)
    } else {
        None
    }
}

/// One benchmark's latency, in nanoseconds.
#[derive(Clone, Copy, Debug, PartialEq, Eq, Structural)]
pub struct Latency {
    pub duration: u64,
    pub lower_variance: u64,
    pub upper_variance: u64,
}

/// The latency of a measured line whose figures are `dur` and `var` in unit
/// `u`, where both fit in nanoseconds.
pub open spec fn latency_of(dur: int, var: int, u: Units) -> Option<Latency> {
    if dur * u.factor() <= u64::MAX && var * u.factor() <= u64::MAX {
        Some(
            Latency {
                duration: (dur * u.factor()) as u64,
                lower_variance: (var * u.factor()) as u64,
                upper_variance: (var * u.factor()) as u64,
            },
        )
    } else {
        None
    }
}

/// `bench: <number> <unit>/iter (+/- <number>)`
pub open spec fn bench(s: Seq<char>, i: int) -> Option<(int, Latency)> {
    match tag(s, i, "bench:"@) {
        None => None,
        Some(a) => match space1(s, a) {
            None => None,
            Some(b) => match number(s, b) {
                None => None,
                Some(c) => match space1(s, c) {
                    None => None,
                    Some(d) => match take_until1(s, d, '/') {
                        None => None,
                        Some(e) => match tag(s, e, "/iter"@) {
                            None => None,
                            Some(f) => match space1(s, f) {
                                None => None,
                                Some(g) => match tag(s, g, "(+/-"@) {
                                    None => None,
                                    Some(h) => match space1(s, h) {
                                        None => None,
                                        Some(k) => match number(s, k) {
                                            None => None,
                                            Some(l) => match tag(s, l, ")"@) {
                                                None => None,
                                                Some(m) => match units_of(s.subrange(d, e)) {
                                                    None => None,
                                                    Some(u) => match latency_of(
                                                        grouped_value(s.subrange(b, c)),
                                                        grouped_value(s.subrange(k, l)),
                                                        u,
                                                    ) {
                                                        None => None,
                                                        Some(lat) => Some((m, lat)),
                                                    },
                                                },
                                            },
                                        },
                                    },
                                },
                            },
                        },
                    },
                },
            },
        },
    }
}

pub proof fn lemma_grouped_value_nonneg(t: Seq<char>)
    ensures
        grouped_value(t) >= 0,
    decreases t.len(),
{
    if t.len() > 0 {
        lemma_grouped_value_nonneg(t.drop_last());
    }
}

pub proof fn lemma_grouped_value_prefix(t: Seq<char>, k: int)
    requires
        0 <= k <= t.len(),
    ensures
        grouped_value(t.subrange(0, k)) <= grouped_value(t),
    decreases t.len() - k,
{
    if k < t.len() {
        lemma_grouped_value_prefix(t, k + 1);
        let u = t.subrange(0, k + 1);
        assert(u.drop_last() =~= t.subrange(0, k));
        lemma_grouped_value_nonneg(u.drop_last());
    } else {
        assert(t.subrange(0, k) =~= t);
    }
}


// ---------------------------------------------------------------------------
// Test lines, the report, and the canonical mapping
// ---------------------------------------------------------------------------

/// What follows `test <name> ... `: `ignored`, or a measured line.
pub open spec fn outcome(s: Seq<char>, i: int) -> Option<(int, Option<Latency>)> {
    match tag(s, i, "ignored"@) {
        Some(j) => Some((j, None)),
        None => match bench(s, i) {
            Some((j, lat)) => Some((j, Some(lat))),
            None => None,
        },
    }
}

/// `test <name> ... <outcome>` and its line ending; an ignored test yields no
/// entry.
pub open spec fn test_line(s: Seq<char>, i: int) -> Option<(int, Option<(Seq<char>, Latency)>)> {
    match tag(s, i, "test"@) {
        None => None,
        Some(a) => match space1(s, a) {
            None => None,
            Some(b) => match take_until1(s, b, ' ') {
                None => None,
                Some(c) => match space1(s, c) {
                    None => None,
                    Some(d) => match tag(s, d, "..."@) {
                        None => None,
                        Some(e) => match space1(s, e) {
                            None => None,
                            Some(f) => match outcome(s, f) {
                                None => None,
                                Some((g, lat)) => match line_ending(s, g) {
                                    None => None,
                                    Some(h) => Some(
                                        (
                                            h,
                                            match lat {
                                                Some(l) => Some((s.subrange(b, c), l)),
                                                None => None,
                                            },
                                        ),
                                    ),
                                },
                            },
                        },
                    },
                },
            },
        },
    }
}

/// Zero or more test lines from `i`: where they stop, and their entries.
pub open spec fn test_lines(s: Seq<char>, i: int) -> (int, Seq<Option<(Seq<char>, Latency)>>)
    decreases s.len() - i,
{
    match test_line(s, i) {
        Some((j, e)) => if i < j <= s.len() {
            let rest = test_lines(s, j);
            (rest.0, seq![e] + rest.1)
        } else {
            (i, Seq::empty())
        },
        None => (i, Seq::empty()),
    }
}

/// `\nrunning <count> test(s)\n`: where the report's body starts.
pub open spec fn preamble(s: Seq<char>) -> Option<int> {
    match line_ending(s, 0) {
        None => None,
        Some(a) => match tag(s, a, "running"@) {
            None => None,
            Some(b) => match space1(s, b) {
                None => None,
                Some(c) => match digit1(s, c) {
                    None => None,
                    Some(d) => match space1(s, d) {
                        None => None,
                        Some(e) => match (
                            match tag(s, e, "tests"@) {
                                Some(f) => Some(f),
                                None => tag(s, e, "test"@),
                            }
                        ) {
                            None => None,
                            Some(f) => line_ending(s, f),
                        },
                    },
                },
            },
        },
    }
}

/// The last position of `m` whose name is `k`, or -1.
pub open spec fn key_index(m: Seq<(Seq<char>, Latency)>, k: Seq<char>) -> int
    decreases m.len(),
{
    if m.len() == 0 {
        -1
    } else if m.last().0 == k {
        m.len() - 1
    } else {
        key_index(m.drop_last(), k)
    }
}

/// `a` precedes `b` in code-point order, the order of `String`'s `Ord`.
pub open spec fn name_lt(a: Seq<char>, b: Seq<char>) -> bool
    decreases a.len(),
{
    if a.len() == 0 {
        b.len() > 0
    } else if b.len() == 0 {
        false
    } else if a[0] != b[0] {
        a[0] < b[0]
    } else {
        name_lt(a.drop_first(), b.drop_first())
    }
}

/// Inserts `(k, v)` after the last entry whose name precedes `k`.
pub open spec fn sorted_insert(m: Seq<(Seq<char>, Latency)>, k: Seq<char>, v: Latency) -> Seq<
    (Seq<char>, Latency),
>
    decreases m.len(),
{
    if m.len() == 0 {
        seq![(k, v)]
    } else if name_lt(m.last().0, k) {
        m.push((k, v))
    } else {
        sorted_insert(m.drop_last(), k, v).push(m.last())
    }
}

/// Sets the latency of `k`: in place where the name is there, else in name
/// order.
pub open spec fn map_insert(m: Seq<(Seq<char>, Latency)>, k: Seq<char>, v: Latency) -> Seq<
    (Seq<char>, Latency),
> {
    if key_index(m, k) >= 0 {
        m.update(key_index(m, k), (k, v))
    } else {
        sorted_insert(m, k, v)
    }
}

/// The canonical mapping of a series of entries: ignored tests are left out,
/// and a name seen again takes its latest latency.
pub open spec fn collect_benchmarks(es: Seq<Option<(Seq<char>, Latency)>>) -> Seq<
    (Seq<char>, Latency),
>
    decreases es.len(),
{
    if es.len() == 0 {
        Seq::empty()
    } else {
        let m = collect_benchmarks(es.drop_last());
        match es.last() {
            Some((k, v)) => map_insert(m, k, v),
            None => m,
        }
    }
}

/// What the libtest adapter makes of `s`: `None` where the preamble is not
/// there (no adapter matched), `Err` with the unconsumed text where the body
/// does not end as the format requires, else the benchmarks by name.
pub open spec fn rust_report(s: Seq<char>) -> Option<Result<Seq<(Seq<char>, Latency)>, Seq<char>>> {
    match preamble(s) {
        None => None,
        Some(p) => {
            let (e, entries) = test_lines(s, p);
            match line_ending(s, e) {
                Some(_) => Some(Ok(collect_benchmarks(entries))),
                None => Some(Err(s.subrange(e, s.len() as int))),
            }
        },
    }
}

/// One benchmark of the canonical mapping.
#[derive(Clone, Debug, PartialEq, Eq)]
pub struct AdaptedBenchmark {
    pub name: String,
    pub latency: Latency,
}

pub open spec fn entries(v: Seq<AdaptedBenchmark>) -> Seq<(Seq<char>, Latency)> {
    v.map_values(|b: AdaptedBenchmark| (b.name@, b.latency))
}

pub open spec fn entry_view(e: Option<AdaptedBenchmark>) -> Option<(Seq<char>, Latency)> {
    match e {
        Some(b) => Some((b.name@, b.latency)),
        None => None,
    }
}

/// Why an adapter produced no metrics.
#[derive(Clone, Debug, PartialEq, Eq)]
pub enum AdapterError {
    /// The text does not have the shape of any known harness report.
    NoMatch,
    /// The text has the report's preamble but not its body; the unconsumed
    /// remainder is kept.
    Parse(String),
}

/// `r` is the outcome that `spec` describes.
pub open spec fn adapted(
    r: Result<Vec<AdaptedBenchmark>, AdapterError>,
    spec: Option<Result<Seq<(Seq<char>, Latency)>, Seq<char>>>,
) -> bool {
    match spec {
        None => r == Err::<Vec<AdaptedBenchmark>, AdapterError>(AdapterError::NoMatch),
        Some(Err(rest)) => r matches Err(AdapterError::Parse(t)) && t@ == rest,
        Some(Ok(m)) => r matches Ok(v) && entries(v@) == m,
    }
}

/// One kind of harness output per variant.
#[derive(Clone, Copy, Debug, PartialEq, Eq, Structural)]
pub enum AdapterKind {
    /// libtest's `cargo bench` report.
    Rust,
}

pub open spec fn adapter_spec(kind: AdapterKind, s: Seq<char>) -> Option<
    Result<Seq<(Seq<char>, Latency)>, Seq<char>>,
> {
    match kind {
        AdapterKind::Rust => rust_report(s),
    }
}

impl AdapterKind {
    /// Converts the captured output of a run with this harness.
    pub fn convert(&self, output: &str) -> (r: Result<Vec<AdaptedBenchmark>, AdapterError>)
        ensures
            adapted(r, adapter_spec(*self, output@)),
    {
        match self {
            AdapterKind::Rust => parse(output),
        }
    }
}

// ---------------------------------------------------------------------------
// Executable recognisers
// ---------------------------------------------------------------------------

pub open spec fn opt_pos(r: Option<usize>) -> Option<int> {
    match r {
        Some(j) => Some(j as int),
        None => None,
    }
}

/// The characters of a string, in order.
pub fn chars_of(s: &str) -> (r: Vec<char>)
    ensures
        r@ == s@,
{
    let mut r: Vec<char> = Vec::new();
    for c in it: s.chars()
        invariant
            it.seq() == s@,
            r@ == it.seq().subrange(0, it.index() as int),
    {
        r.push(c);
    }
    r
}

fn skip_spaces(cs: &Vec<char>, i: usize) -> (r: usize)
    requires
        i <= cs.len(),
    ensures
        r as int == spaces_end(cs@, i as int),
        i <= r <= cs.len(),
{
    let mut j = i;
    while j < cs.len() && (cs[j] == ' ' || cs[j] == '\t')
        invariant
            i <= j <= cs.len(),
            spaces_end(cs@, i as int) == spaces_end(cs@, j as int),
        decreases cs.len() - j,
    {
        j = j + 1;
    }
    j
}

fn skip_digits(cs: &Vec<char>, i: usize) -> (r: usize)
    requires
        i <= cs.len(),
    ensures
        r as int == digits_end(cs@, i as int),
        i <= r <= cs.len(),
{
    let mut j = i;
    while j < cs.len() && ('0' <= cs[j] && cs[j] <= '9')
        invariant
            i <= j <= cs.len(),
            digits_end(cs@, i as int) == digits_end(cs@, j as int),
        decreases cs.len() - j,
    {
        j = j + 1;
    }
    j
}

fn exec_space1(cs: &Vec<char>, i: usize) -> (r: Option<usize>)
    requires
        i <= cs.len(),
    ensures
        opt_pos(r) == space1(cs@, i as int),
        r matches Some(j) ==> i < j <= cs.len(),
{
    let j = skip_spaces(cs, i);
    if j > i {
        Some(j)
    } else {
        None
    }
}

fn exec_digit1(cs: &Vec<char>, i: usize) -> (r: Option<usize>)
    requires
        i <= cs.len(),
    ensures
        opt_pos(r) == digit1(cs@, i as int),
        r matches Some(j) ==> i < j <= cs.len(),
{
    let j = skip_digits(cs, i);
    if j > i {
        Some(j)
    } else {
        None
    }
}

fn exec_tag(cs: &Vec<char>, i: usize, t: &str) -> (r: Option<usize>)
    requires
        i <= cs.len(),
    ensures
        opt_pos(r) == tag(cs@, i as int, t@),
        r matches Some(j) ==> i <= j <= cs.len(),
{
    let n = t.unicode_len();
    if n > cs.len() - i {
        return None;
    }
    let mut k: usize = 0;
    while k < n
        invariant
            k <= n,
            n == t@.len(),
            i + n <= cs.len(),
            cs@.subrange(i as int, i + k) == t@.subrange(0, k as int),
        decreases n - k,
    {
        if cs[i + k] != t.get_char(k) {
            assert(cs@.subrange(i as int, i + n)[k as int] != t@[k as int]);
            return None;
        }
        assert(cs@.subrange(i as int, i + k + 1) =~= cs@.subrange(i as int, i + k).push(cs@[i + k]));
        assert(t@.subrange(0, k + 1) =~= t@.subrange(0, k as int).push(t@[k as int]));
        k = k + 1;
    }
    assert(t@.subrange(0, n as int) =~= t@);
    Some(i + n)
}

fn exec_line_ending(cs: &Vec<char>, i: usize) -> (r: Option<usize>)
    requires
        i <= cs.len(),
    ensures
        opt_pos(r) == line_ending(cs@, i as int),
        r matches Some(j) ==> i < j <= cs.len(),
{
    if i < cs.len() && cs[i] == '\n' {
        Some(i + 1)
    } else if cs.len() - i >= 2 && cs[i] == '\r' && cs[i + 1] == '\n' {
        Some(i + 2)
    } else {
        None
    }
}

fn exec_take_until1(cs: &Vec<char>, i: usize, c: char) -> (r: Option<usize>)
    requires
        i <= cs.len(),
    ensures
        opt_pos(r) == take_until1(cs@, i as int, c),
        r matches Some(j) ==> i < j < cs.len(),
{
    let mut j = i;
    while j < cs.len() && cs[j] != c
        invariant
            i <= j <= cs.len(),
            find_char(cs@, i as int, c) == find_char(cs@, j as int, c),
        decreases cs.len() - j,
    {
        j = j + 1;
    }
    if j < cs.len() && j > i {
        Some(j)
    } else {
        None
    }
}


fn exec_number(cs: &Vec<char>, i: usize) -> (r: Option<usize>)
    requires
        i <= cs.len(),
    ensures
        opt_pos(r) == number(cs@, i as int),
        r matches Some(j) ==> i < j <= cs.len(),
{
    if !(i < cs.len() && '0' <= cs[i] && cs[i] <= '9') {
        return None;
    }
    let mut j = i + 1;
    loop
        invariant
            i < j <= cs.len(),
            number(cs@, i as int) == Some(number_rest_end(cs@, j as int)),
        decreases cs.len() - j,
    {
        if j < cs.len() && '0' <= cs[j] && cs[j] <= '9' {
            j = j + 1;
        } else if j < cs.len() && cs[j] == ',' {
            if cs.len() - j >= 2 && '0' <= cs[j + 1] && cs[j + 1] <= '9' {
                j = j + 2;
            } else {
                return Some(j + 1);
            }
        } else {
            return Some(j);
        }
    }
}

/// The value of the digits in `cs[start..end]`, grouping commas dropped;
/// `None` where it does not fit in a `u64`.
pub fn to_u64(cs: &Vec<char>, start: usize, end: usize) -> (r: Option<u64>)
    requires
        start <= end <= cs.len(),
    ensures
        grouped_value(cs@.subrange(start as int, end as int)) <= u64::MAX ==> r == Some(
            grouped_value(cs@.subrange(start as int, end as int)) as u64,
        ),
        grouped_value(cs@.subrange(start as int, end as int)) > u64::MAX ==> r is None,
{
    let ghost t = cs@.subrange(start as int, end as int);
    let mut acc: u64 = 0;
    let mut j = start;
    assert(cs@.subrange(start as int, start as int).len() == 0);
    while j < end
        invariant
            start <= j <= end <= cs.len(),
            t == cs@.subrange(start as int, end as int),
            acc == grouped_value(cs@.subrange(start as int, j as int)),
        decreases end - j,
    {
        let ghost u = cs@.subrange(start as int, j + 1);
        assert(u.drop_last() =~= cs@.subrange(start as int, j as int));
        assert(u.last() == cs@[j as int]);
        let c = cs[j];
        if '0' <= c && c <= '9' {
            let d = (c as u32 - '0' as u32) as u64;
            if acc > (u64::MAX - d) / 10 {
                proof {
                    assert(cs@.subrange(start as int, end as int).subrange(0, j + 1 - start) =~= u);
                    lemma_grouped_value_prefix(t, j + 1 - start);
                }
                return None;
            }
            acc = acc * 10 + d;
        }
        j = j + 1;
    }
    Some(acc)
}

/// `time` in `units`, as nanoseconds.
pub fn to_duration(time: u64, units: &Units) -> (r: u128)
    ensures
        r == time * units.factor(),
{
    let t = time as u128;
    match units {
        Units::Nano => t,
        Units::Micro => t * 1_000,
        Units::Milli => t * 1_000_000,
        Units::Sec => t * 1_000_000_000,
    }
}

/// Whether `cs[a..b]` is exactly the text `t`.
fn span_is(cs: &Vec<char>, a: usize, b: usize, t: &str) -> (r: bool)
    requires
        a <= b <= cs.len(),
    ensures
        r == (cs@.subrange(a as int, b as int) == t@),
{
    match exec_tag(cs, a, t) {
        Some(j) => {
            if j == b {
                true
            } else {
                proof {
                    if cs@.subrange(a as int, b as int) == t@ {
                        assert(t@.len() == b - a);
                    }
                }
                false
            }
        },
        None => false,
    }
}

fn units_in(cs: &Vec<char>, a: usize, b: usize) -> (r: Option<Units>)
    requires
        a <= b <= cs.len(),
    ensures
        r == units_of(cs@.subrange(a as int, b as int)),
{
    if span_is(cs, a, b, "ns") {
        Some(Units::Nano)
    } else if span_is(cs, a, b, "μs") {
        Some(Units::Micro)
    } else if span_is(cs, a, b, "ms") {
        Some(Units::Milli)
    } else if span_is(cs, a, b, "s") {
        Some(Units::Sec)
    } else {
        None
    }
}


fn parse_bench(cs: &Vec<char>, i: usize) -> (r: Option<(usize, Latency)>)
    requires
        i <= cs.len(),
    ensures
        match r {
            Some((j, lat)) => bench(cs@, i as int) == Some((j as int, lat)) && i <= j <= cs.len(),
            None => bench(cs@, i as int) is None,
        },
{
    let a = match exec_tag(cs, i, "bench:") { Some(a) => a, None => return None };
    let b = match exec_space1(cs, a) { Some(b) => b, None => return None };
    let c = match exec_number(cs, b) { Some(c) => c, None => return None };
    let d = match exec_space1(cs, c) { Some(d) => d, None => return None };
    let e = match exec_take_until1(cs, d, '/') { Some(e) => e, None => return None };
    let f = match exec_tag(cs, e, "/iter") { Some(f) => f, None => return None };
    let g = match exec_space1(cs, f) { Some(g) => g, None => return None };
    let h = match exec_tag(cs, g, "(+/-") { Some(h) => h, None => return None };
    let k = match exec_space1(cs, h) { Some(k) => k, None => return None };
    let l = match exec_number(cs, k) { Some(l) => l, None => return None };
    let m = match exec_tag(cs, l, ")") { Some(m) => m, None => return None };
    let units = match units_in(cs, d, e) { Some(u) => u, None => return None };
    let ghost fd = units.factor();
    assert(fd >= 1);
    let duration = match to_u64(cs, b, c) {
        Some(v) => v,
        None => {
            assert(grouped_value(cs@.subrange(b as int, c as int)) * fd >= grouped_value(
                cs@.subrange(b as int, c as int),
            )) by (nonlinear_arith)
                requires
                    fd >= 1,
                    grouped_value(cs@.subrange(b as int, c as int)) > 0,
            ;
            return None;
        },
    };
    let variance = match to_u64(cs, k, l) {
        Some(v) => v,
        None => {
            assert(grouped_value(cs@.subrange(k as int, l as int)) * fd >= grouped_value(
                cs@.subrange(k as int, l as int),
            )) by (nonlinear_arith)
                requires
                    fd >= 1,
                    grouped_value(cs@.subrange(k as int, l as int)) > 0,
            ;
            return None;
        },
    };
    let ghost gd = grouped_value(cs@.subrange(b as int, c as int));
    let ghost gv = grouped_value(cs@.subrange(k as int, l as int));
    proof {
        lemma_grouped_value_nonneg(cs@.subrange(b as int, c as int));
        lemma_grouped_value_nonneg(cs@.subrange(k as int, l as int));
    }
    assert(duration as int == gd);
    assert(variance as int == gv);
    assert(tag(cs@, i as int, "bench:"@) == Some(a as int));
    assert(space1(cs@, a as int) == Some(b as int));
    assert(number(cs@, b as int) == Some(c as int));
    assert(space1(cs@, c as int) == Some(d as int));
    assert(take_until1(cs@, d as int, '/') == Some(e as int));
    assert(tag(cs@, e as int, "/iter"@) == Some(f as int));
    assert(space1(cs@, f as int) == Some(g as int));
    assert(tag(cs@, g as int, "(+/-"@) == Some(h as int));
    assert(space1(cs@, h as int) == Some(k as int));
    assert(number(cs@, k as int) == Some(l as int));
    assert(tag(cs@, l as int, ")"@) == Some(m as int));
    assert(units_of(cs@.subrange(d as int, e as int)) == Some(units));
    let duration = to_duration(duration, &units);
    let variance = to_duration(variance, &units);
    assert(duration == gd * units.factor());
    assert(variance == gv * units.factor());
    if duration > u64::MAX as u128 || variance > u64::MAX as u128 {
        assert(latency_of(gd, gv, units) is None);
        return None;
    }
    assert(latency_of(gd, gv, units) == Some(
        Latency {
            duration: duration as u64,
            lower_variance: variance as u64,
            upper_variance: variance as u64,
        },
    ));
    Some(
        (
            m,
            Latency {
                duration: duration as u64,
                lower_variance: variance as u64,
                upper_variance: variance as u64,
            },
        ),
    )
}

/// How one test line ended.
#[derive(Clone, Copy)]
pub enum Test {
    Ignored,
    Bench(Latency),
}

/// The entry that a test line adds to the mapping: none for an ignored test.
pub fn to_latency(key: String, test: Test) -> (r: Option<AdaptedBenchmark>)
    ensures
        match test {
            Test::Ignored => r is None,
            Test::Bench(lat) => r matches Some(b) && b.name@ == key@ && b.latency == lat,
        },
{
    match test {
        Test::Ignored => None,
        Test::Bench(latency) => Some(AdaptedBenchmark { name: key, latency }),
    }
}

fn parse_outcome(cs: &Vec<char>, i: usize) -> (r: Option<(usize, Test)>)
    requires
        i <= cs.len(),
    ensures
        match r {
            Some((j, Test::Ignored)) => outcome(cs@, i as int) == Some((j as int, None::<Latency>)),
            Some((j, Test::Bench(lat))) => outcome(cs@, i as int) == Some((j as int, Some(lat))),
            None => outcome(cs@, i as int) is None,
        },
        r matches Some((j, _)) ==> i <= j <= cs.len(),
{
    match exec_tag(cs, i, "ignored") {
        Some(j) => Some((j, Test::Ignored)),
        None => match parse_bench(cs, i) {
            Some((j, lat)) => Some((j, Test::Bench(lat))),
            None => None,
        },
    }
}

fn parse_test_line(s: &str, cs: &Vec<char>, i: usize) -> (r: Option<(usize, Option<AdaptedBenchmark>)>)
    requires
        cs@ == s@,
        i <= cs.len(),
    ensures
        match r {
            Some((j, e)) => test_line(cs@, i as int) == Some((j as int, entry_view(e))) && i < j
                <= cs.len(),
            None => test_line(cs@, i as int) is None,
        },
{
    let a = match exec_tag(cs, i, "test") { Some(a) => a, None => return None };
    let b = match exec_space1(cs, a) { Some(b) => b, None => return None };
    let c = match exec_take_until1(cs, b, ' ') { Some(c) => c, None => return None };
    let d = match exec_space1(cs, c) { Some(d) => d, None => return None };
    let e = match exec_tag(cs, d, "...") { Some(e) => e, None => return None };
    let f = match exec_space1(cs, e) { Some(f) => f, None => return None };
    let (g, test) = match parse_outcome(cs, f) { Some(o) => o, None => return None };
    let h = match exec_line_ending(cs, g) { Some(h) => h, None => return None };
    let name = s.substring_char(b, c).to_owned();
    assert(name@ == cs@.subrange(b as int, c as int));
    let ghost t = test;
    let entry = to_latency(name, test);
    assert(outcome(cs@, f as int) == Some((g as int, match t {
        Test::Ignored => None,
        Test::Bench(lat) => Some(lat),
    })));
    assert(entry_view(entry) == match t {
        Test::Ignored => None,
        Test::Bench(lat) => Some((cs@.subrange(b as int, c as int), lat)),
    });
    assert(tag(cs@, i as int, "test"@) == Some(a as int));
    assert(space1(cs@, a as int) == Some(b as int));
    assert(take_until1(cs@, b as int, ' ') == Some(c as int));
    assert(space1(cs@, c as int) == Some(d as int));
    assert(tag(cs@, d as int, "..."@) == Some(e as int));
    assert(space1(cs@, e as int) == Some(f as int));
    assert(line_ending(cs@, g as int) == Some(h as int));
    Some((h, entry))
}

fn parse_preamble(cs: &Vec<char>) -> (r: Option<usize>)
    ensures
        opt_pos(r) == preamble(cs@),
        r matches Some(p) ==> p <= cs.len(),
{
    let a = match exec_line_ending(cs, 0) { Some(a) => a, None => return None };
    let b = match exec_tag(cs, a, "running") { Some(b) => b, None => return None };
    let c = match exec_space1(cs, b) { Some(c) => c, None => return None };
    let d = match exec_digit1(cs, c) { Some(d) => d, None => return None };
    let e = match exec_space1(cs, d) { Some(e) => e, None => return None };
    let f = match exec_tag(cs, e, "tests") {
        Some(f) => f,
        None => match exec_tag(cs, e, "test") { Some(f) => f, None => return None },
    };
    exec_line_ending(cs, f)
}

/// Sets the latency of `b.name` in `m`, keeping the position of a name that
/// is already there.
fn insert_benchmark(m: &mut Vec<AdaptedBenchmark>, b: AdaptedBenchmark)
    ensures
        entries(final(m)@) == map_insert(entries(old(m)@), b.name@, b.latency),
{
    let ghost k = b.name@;
    let ghost before = entries(m@);
    let mut j = m.len();
    assert(before.subrange(0, j as int) =~= before);
    while j > 0
        invariant
            j <= m.len(),
            m@ == old(m)@,
            k == b.name@,
            before == entries(m@),
            key_index(before, k) == key_index(before.subrange(0, j as int), k),
        decreases j,
    {
        assert(before.subrange(0, j as int).drop_last() =~= before.subrange(0, j - 1));
        assert(before.subrange(0, j as int).last() == before[j - 1]);
        assert(before[j - 1] == (m@[j - 1].name@, m@[j - 1].latency));
        if m[j - 1].name.eq(&b.name) {
            assert(m@[j - 1].name@ == k);
            assert(before.subrange(0, j as int).last().0 == k);
            assert(key_index(before, k) == j - 1);
            let ghost lat = b.latency;
            let ghost prev = m@;
            m.set(j - 1, b);
            assert(m@ == prev.update(j - 1, b));
            assert forall|x: int| 0 <= x < m@.len() implies #[trigger] entries(m@)[x] == before.update(
                j - 1,
                (k, lat),
            )[x] by {
                if x != j - 1 {
                    assert(m@[x] == prev[x]);
                }
            }
            assert(entries(m@) =~= before.update(j - 1, (k, lat)));
            return;
        }
        j = j - 1;
    }
    let ghost lat = b.latency;
    let mut p = m.len();
    assert(before.subrange(0, p as int) =~= before);
    assert(before.subrange(p as int, before.len() as int) =~= Seq::<(Seq<char>, Latency)>::empty());
    while p > 0 && !name_less(&m[p - 1].name, &b.name)
        invariant
            p <= m.len(),
            m@ == old(m)@,
            k == b.name@,
            lat == b.latency,
            before == entries(m@),
            key_index(before, k) < 0,
            sorted_insert(before, k, lat) == sorted_insert(before.subrange(0, p as int), k, lat)
                + before.subrange(p as int, before.len() as int),
        decreases p,
    {
        let ghost sub = before.subrange(0, p as int);
        assert(sub.drop_last() =~= before.subrange(0, p - 1));
        assert(sub.last() == before[p - 1]);
        assert(before.subrange(p - 1, before.len() as int) =~= seq![before[p - 1]]
            + before.subrange(p as int, before.len() as int));
        assert(sorted_insert(before.subrange(0, p - 1), k, lat).push(before[p - 1])
            + before.subrange(p as int, before.len() as int) =~= sorted_insert(
            before.subrange(0, p - 1),
            k,
            lat,
        ) + before.subrange(p - 1, before.len() as int));
        p = p - 1;
    }
    proof {
        let sub = before.subrange(0, p as int);
        if p > 0 {
            assert(sub.last() == before[p - 1]);
        } else {
            assert(sub =~= Seq::<(Seq<char>, Latency)>::empty());
        }
        assert(sorted_insert(sub, k, lat) =~= sub.push((k, lat)));
    }
    m.insert(p, b);
    assert(entries(m@) =~= before.subrange(0, p as int).push((k, lat)) + before.subrange(
        p as int,
        before.len() as int,
    ));
}

proof fn lemma_name_lt_suffix(a: Seq<char>, b: Seq<char>, i: int)
    requires
        0 <= i <= a.len(),
        i <= b.len(),
        a.subrange(0, i) == b.subrange(0, i),
    ensures
        name_lt(a, b) == name_lt(a.subrange(i, a.len() as int), b.subrange(i, b.len() as int)),
    decreases i,
{
    if i > 0 {
        assert(a[0] == a.subrange(0, i)[0]);
        assert(b[0] == b.subrange(0, i)[0]);
        assert(a.drop_first().subrange(0, i - 1) =~= a.subrange(0, i).drop_first());
        assert(b.drop_first().subrange(0, i - 1) =~= b.subrange(0, i).drop_first());
        lemma_name_lt_suffix(a.drop_first(), b.drop_first(), i - 1);
        assert(a.drop_first().subrange(i - 1, a.len() - 1) =~= a.subrange(i, a.len() as int));
        assert(b.drop_first().subrange(i - 1, b.len() - 1) =~= b.subrange(i, b.len() as int));
    } else {
        assert(a.subrange(0, a.len() as int) =~= a);
        assert(b.subrange(0, b.len() as int) =~= b);
    }
}

/// Whether name `a` precedes name `b`.
fn name_less(a: &String, b: &String) -> (r: bool)
    ensures
        r == name_lt(a@, b@),
{
    let x = chars_of(a.as_str());
    let y = chars_of(b.as_str());
    let mut i: usize = 0;
    while i < x.len() && i < y.len() && x[i] == y[i]
        invariant
            i <= x.len(),
            i <= y.len(),
            x@.subrange(0, i as int) == y@.subrange(0, i as int),
        decreases x.len() - i,
    {
        assert(x@.subrange(0, i + 1) =~= x@.subrange(0, i as int).push(x@[i as int]));
        assert(y@.subrange(0, i + 1) =~= y@.subrange(0, i as int).push(y@[i as int]));
        i = i + 1;
    }
    proof {
        lemma_name_lt_suffix(x@, y@, i as int);
        let xs = x@.subrange(i as int, x@.len() as int);
        let ys = y@.subrange(i as int, y@.len() as int);
        if i < x.len() && i < y.len() {
            assert(xs[0] == x@[i as int]);
            assert(ys[0] == y@[i as int]);
        }
    }
    if i == x.len() {
        i < y.len()
    } else if i == y.len() {
        false
    } else {
        x[i] < y[i]
    }
}

/// Parses libtest's bench report into the benchmarks by name.
pub fn parse_stdout(input: &str) -> (r: Result<Vec<AdaptedBenchmark>, AdapterError>)
    ensures
        adapted(r, rust_report(input@)),
{
    let cs = chars_of(input);
    let p = match parse_preamble(&cs) {
        Some(p) => p,
        None => return Err(AdapterError::NoMatch),
    };
    let mut m: Vec<AdaptedBenchmark> = Vec::new();
    let mut i = p;
    let mut stopped = false;
    let ghost done: Seq<Option<(Seq<char>, Latency)>> = Seq::empty();
    while !stopped
        invariant
            cs@ == input@,
            p <= i <= cs.len(),
            test_lines(cs@, p as int) == (test_lines(cs@, i as int).0, done + test_lines(
                cs@,
                i as int,
            ).1),
            entries(m@) == collect_benchmarks(done),
            stopped ==> test_line(cs@, i as int) is None,
        decreases cs.len() - i, if stopped {
            0int
        } else {
            1int
        },
    {
        match parse_test_line(input, &cs, i) {
            Some((j, e)) => {
                proof {
                    let ghost d2 = done.push(entry_view(e));
                    assert(d2.drop_last() =~= done);
                    assert(done + test_lines(cs@, i as int).1 =~= d2 + test_lines(cs@, j as int).1);
                    done = d2;
                }
                match e {
                    Some(b) => insert_benchmark(&mut m, b),
                    None => {},
                }
                i = j;
            },
            None => {
                stopped = true;
            },
        }
    }
    assert(done + test_lines(cs@, i as int).1 =~= done);
    match exec_line_ending(&cs, i) {
        Some(_) => Ok(m),
        None => Err(AdapterError::Parse(input.substring_char(i, cs.len()).to_owned())),
    }
}

/// Converts the output of a libtest bench run.
pub fn parse(output: &str) -> (r: Result<Vec<AdaptedBenchmark>, AdapterError>)
    ensures
        adapted(r, rust_report(output@)),
        r matches Ok(v) ==> names_ascending(entries(v@)),
{
    let r = parse_stdout(output);
    proof {
        let s = output@;
        match preamble(s) {
            Some(p) => lemma_benchmarks_ascending(test_lines(s, p).1),
            None => {},
        }
    }
    r
}


/// The outcome that a parse result stands for, as a value of the grammar's
/// model.
pub open spec fn outcome_of(r: Result<Vec<AdaptedBenchmark>, AdapterError>) -> Option<
    Result<Seq<(Seq<char>, Latency)>, Seq<char>>,
> {
    match r {
        Ok(v) => Some(Ok(entries(v@))),
        Err(AdapterError::NoMatch) => None,
        Err(AdapterError::Parse(t)) => Some(Err(t@)),
    }
}

/// Parsing depends on the text alone: any two results that `parse` may
/// return for the same text stand for the same benchmarks, or the same error.
pub proof fn lemma_parse_deterministic(
    s: Seq<char>,
    r1: Result<Vec<AdaptedBenchmark>, AdapterError>,
    r2: Result<Vec<AdaptedBenchmark>, AdapterError>,
)
    requires
        adapted(r1, rust_report(s)),
        adapted(r2, rust_report(s)),
    ensures
        outcome_of(r1) == outcome_of(r2),
        outcome_of(r1) == rust_report(s),
{
}


// ---------------------------------------------------------------------------
// The mapping is ordered by name
// ---------------------------------------------------------------------------

/// Each name precedes the next.
pub open spec fn names_ascending(m: Seq<(Seq<char>, Latency)>) -> bool {
    forall|i: int, j: int| 0 <= i < j < m.len() ==> name_lt(#[trigger] m[i].0, #[trigger] m[j].0)
}

proof fn lemma_name_lt_trans(a: Seq<char>, b: Seq<char>, c: Seq<char>)
    requires
        name_lt(a, b),
        name_lt(b, c),
    ensures
        name_lt(a, c),
    decreases a.len(),
{
    if a.len() > 0 && b.len() > 0 && c.len() > 0 && a[0] == b[0] && b[0] == c[0] {
        lemma_name_lt_trans(a.drop_first(), b.drop_first(), c.drop_first());
    }
}

proof fn lemma_name_lt_total(a: Seq<char>, b: Seq<char>)
    requires
        a != b,
    ensures
        name_lt(a, b) || name_lt(b, a),
    decreases a.len(),
{
    if a.len() == 0 && b.len() == 0 {
        assert(a =~= b);
    } else if a.len() > 0 && b.len() > 0 && a[0] == b[0] {
        if a.drop_first() == b.drop_first() {
            assert(a =~= seq![a[0]] + a.drop_first());
            assert(b =~= seq![b[0]] + b.drop_first());
            assert(a =~= b);
        } else {
            lemma_name_lt_total(a.drop_first(), b.drop_first());
        }
    }
}

proof fn lemma_key_absent(m: Seq<(Seq<char>, Latency)>, k: Seq<char>)
    requires
        key_index(m, k) < 0,
    ensures
        forall|i: int| 0 <= i < m.len() ==> (#[trigger] m[i]).0 != k,
    decreases m.len(),
{
    if m.len() > 0 {
        lemma_key_absent(m.drop_last(), k);
        assert forall|i: int| 0 <= i < m.len() implies (#[trigger] m[i]).0 != k by {
            if i < m.len() - 1 {
                assert(m[i] == m.drop_last()[i]);
            }
        }
    }
}

proof fn lemma_insert_below(m: Seq<(Seq<char>, Latency)>, k: Seq<char>, v: Latency, x: Seq<char>)
    requires
        forall|i: int| 0 <= i < m.len() ==> name_lt(#[trigger] m[i].0, x),
        name_lt(k, x),
    ensures
        sorted_insert(m, k, v).len() == m.len() + 1,
        forall|i: int|
            0 <= i < sorted_insert(m, k, v).len() ==> name_lt(
                #[trigger] sorted_insert(m, k, v)[i].0,
                x,
            ),
    decreases m.len(),
{
    if m.len() > 0 && !name_lt(m.last().0, k) {
        let p = m.drop_last();
        assert forall|i: int| 0 <= i < p.len() implies name_lt(#[trigger] p[i].0, x) by {
            assert(p[i] == m[i]);
        }
        lemma_insert_below(p, k, v, x);
        assert(name_lt(m[m.len() - 1].0, x));
    }
}

proof fn lemma_sorted_insert_ascending(m: Seq<(Seq<char>, Latency)>, k: Seq<char>, v: Latency)
    requires
        names_ascending(m),
        forall|i: int| 0 <= i < m.len() ==> (#[trigger] m[i]).0 != k,
    ensures
        names_ascending(sorted_insert(m, k, v)),
        sorted_insert(m, k, v).len() == m.len() + 1,
    decreases m.len(),
{
    if m.len() == 0 {
    } else if name_lt(m.last().0, k) {
        let r = m.push((k, v));
        assert forall|i: int, j: int| 0 <= i < j < r.len() implies name_lt(
            #[trigger] r[i].0,
            #[trigger] r[j].0,
        ) by {
            if j == m.len() && i < m.len() - 1 {
                lemma_name_lt_trans(m[i].0, m.last().0, k);
            }
        }
    } else {
        let p = m.drop_last();
        let last = m.last();
        assert forall|i: int| 0 <= i < p.len() implies (#[trigger] p[i]).0 != k by {
            assert(p[i] == m[i]);
        }
        assert forall|i: int, j: int| 0 <= i < j < p.len() implies name_lt(
            #[trigger] p[i].0,
            #[trigger] p[j].0,
        ) by {
            assert(p[i] == m[i] && p[j] == m[j]);
        }
        lemma_sorted_insert_ascending(p, k, v);
        assert(last.0 != k);
        lemma_name_lt_total(last.0, k);
        assert forall|i: int| 0 <= i < p.len() implies name_lt(#[trigger] p[i].0, last.0) by {
            assert(p[i] == m[i]);
            assert(m[m.len() - 1] == last);
        }
        lemma_insert_below(p, k, v, last.0);
        let q = sorted_insert(p, k, v);
        let r = q.push(last);
        assert forall|i: int, j: int| 0 <= i < j < r.len() implies name_lt(
            #[trigger] r[i].0,
            #[trigger] r[j].0,
        ) by {
            if j == q.len() {
                assert(r[i] == q[i]);
            } else {
                assert(r[i] == q[i] && r[j] == q[j]);
            }
        }
    }
}

/// The benchmarks of a report come out with their names strictly ascending,
/// as in an ordered map.
pub proof fn lemma_benchmarks_ascending(es: Seq<Option<(Seq<char>, Latency)>>)
    ensures
        names_ascending(collect_benchmarks(es)),
    decreases es.len(),
{
    if es.len() > 0 {
        let m = collect_benchmarks(es.drop_last());
        lemma_benchmarks_ascending(es.drop_last());
        match es.last() {
            Some((k, v)) => {
                if key_index(m, k) >= 0 {
                    lemma_key_index_bound(m, k);
                    let r = m.update(key_index(m, k), (k, v));
                    assert forall|i: int, j: int| 0 <= i < j < r.len() implies name_lt(
                        #[trigger] r[i].0,
                        #[trigger] r[j].0,
                    ) by {
                        assert(r[i].0 == m[i].0 && r[j].0 == m[j].0);
                    }
                } else {
                    lemma_key_absent(m, k);
                    lemma_sorted_insert_ascending(m, k, v);
                }
            },
            None => {},
        }
    }
}

proof fn lemma_key_index_bound(m: Seq<(Seq<char>, Latency)>, k: Seq<char>)
    ensures
        key_index(m, k) < m.len(),
        key_index(m, k) >= 0 ==> m[key_index(m, k)].0 == k,
    decreases m.len(),
{
    if m.len() > 0 && m.last().0 != k {
        lemma_key_index_bound(m.drop_last(), k);
        if key_index(m, k) >= 0 {
            assert(m[key_index(m, k)] == m.drop_last()[key_index(m, k)]);
        }
    }
}


// ---------------------------------------------------------------------------
// What the mapping holds
// ---------------------------------------------------------------------------

/// The latency that `m` holds for name `k`, if any.
pub open spec fn lookup(m: Seq<(Seq<char>, Latency)>, k: Seq<char>) -> Option<Latency> {
    if key_index(m, k) >= 0 {
        Some(m[key_index(m, k)].1)
    } else {
        None
    }
}

/// The latency of the last measured line named `k`, if any.
pub open spec fn last_latency(es: Seq<Option<(Seq<char>, Latency)>>, k: Seq<char>) -> Option<Latency>
    decreases es.len(),
{
    if es.len() == 0 {
        None
    } else {
        match es.last() {
            Some((k1, v)) => if k1 == k {
                Some(v)
            } else {
                last_latency(es.drop_last(), k)
            },
            None => last_latency(es.drop_last(), k),
        }
    }
}

proof fn lemma_update_keys(m: Seq<(Seq<char>, Latency)>, i: int, e: (Seq<char>, Latency), k2: Seq<char>)
    requires
        0 <= i < m.len(),
        e.0 == m[i].0,
    ensures
        key_index(m.update(i, e), k2) == key_index(m, k2),
    decreases m.len(),
{
    let u = m.update(i, e);
    if i < m.len() - 1 {
        assert(u.drop_last() =~= m.drop_last().update(i, e));
        assert(u.last() == m.last());
        lemma_update_keys(m.drop_last(), i, e, k2);
    } else {
        assert(u.drop_last() =~= m.drop_last());
    }
}

proof fn lemma_sorted_insert_lookup(m: Seq<(Seq<char>, Latency)>, k: Seq<char>, v: Latency, k2: Seq<char>)
    requires
        key_index(m, k) < 0,
    ensures
        lookup(sorted_insert(m, k, v), k2) == if k2 == k {
            Some(v)
        } else {
            lookup(m, k2)
        },
    decreases m.len(),
{
    if m.len() == 0 {
        let r = seq![(k, v)];
        assert(r.drop_last() =~= Seq::<(Seq<char>, Latency)>::empty());
        assert(key_index(r.drop_last(), k2) == -1);
        assert(sorted_insert(m, k, v) == r);
    } else if name_lt(m.last().0, k) {
        let r = m.push((k, v));
        assert(r.drop_last() =~= m);
        if k2 != k {
            lemma_key_index_bound(m, k2);
        }
    } else {
        let p = m.drop_last();
        let q = sorted_insert(p, k, v);
        lemma_sorted_insert_lookup(p, k, v, k2);
        lemma_insert_below_len(p, k, v);
        let r = q.push(m.last());
        assert(r.drop_last() =~= q);
        lemma_key_index_bound(q, k2);
        lemma_key_index_bound(p, k2);
        assert(m.drop_last() == p);
        assert(m.last().0 != k);
        assert(key_index(p, k) < 0);
        if m.last().0 != k2 {
            if key_index(q, k2) >= 0 {
                assert(r[key_index(q, k2)] == q[key_index(q, k2)]);
            }
            if key_index(p, k2) >= 0 {
                assert(m[key_index(p, k2)] == p[key_index(p, k2)]);
            }
        }
    }
}

proof fn lemma_insert_below_len(m: Seq<(Seq<char>, Latency)>, k: Seq<char>, v: Latency)
    ensures
        sorted_insert(m, k, v).len() == m.len() + 1,
    decreases m.len(),
{
    if m.len() > 0 && !name_lt(m.last().0, k) {
        lemma_insert_below_len(m.drop_last(), k, v);
    }
}

/// The mapping of a report holds, for each name, the latency of the last
/// measured line of that name, and no other names: ignored lines add none.
pub proof fn lemma_benchmarks_are_last_latencies(es: Seq<Option<(Seq<char>, Latency)>>, k: Seq<char>)
    ensures
        lookup(collect_benchmarks(es), k) == last_latency(es, k),
    decreases es.len(),
{
    if es.len() > 0 {
        let m = collect_benchmarks(es.drop_last());
        lemma_benchmarks_are_last_latencies(es.drop_last(), k);
        match es.last() {
            Some((k1, v)) => {
                if key_index(m, k1) >= 0 {
                    lemma_key_index_bound(m, k1);
                    lemma_key_index_bound(m, k);
                    let i = key_index(m, k1);
                    lemma_update_keys(m, i, (k1, v), k);
                    lemma_update_keys(m, i, (k1, v), k1);
                } else {
                    lemma_sorted_insert_lookup(m, k1, v, k);
                }
            },
            None => {},
        }
    }
}

} // verus!
