//! The filter language: atoms over request fields, boolean combinators, a
//! parser for the textual form, and exact matching semantics.
use vstd::prelude::*;

use crate::strtab::str_eq;
use crate::Protocol;
use crate::Record;
use crate::RequestEntry;

verus! {

/// What a regex matcher answers for a pattern and a subject: a function of
/// the two strings alone.
pub uninterp spec fn regex_match_of(pat: Seq<char>, s: Seq<char>) -> bool;

/// The edit distance between two strings: a function of the two alone.
pub uninterp spec fn levenshtein_of(a: Seq<char>, b: Seq<char>) -> int;

/// The ASCII-lowercased form of a string.
pub uninterp spec fn ascii_lower_of(s: Seq<char>) -> Seq<char>;

/// Relies on `regex::Regex::new` and `Regex::is_match`: whether the pattern
/// compiles and matches is a function of the pattern and subject alone; a
/// pattern that does not compile matches nothing.
#[verifier::external_body]
pub fn regex_is_match(pat: &str, s: &str) -> (r: bool)
    ensures
        r == regex_match_of(pat@, s@),
{
    match regex::Regex::new(pat) {
        Ok(re) => re.is_match(s),
        Err(_) => false,
    }
}

/// Relies on `regex::Regex::new`: whether a pattern compiles depends on the
/// pattern alone.
#[verifier::external_body]
pub fn regex_compiles(pat: &str) -> (r: bool)
    ensures
        r == regex_ok(pat@),
{
    regex::Regex::new(pat).is_ok()
}

/// Whether a pattern is a valid regex.
pub uninterp spec fn regex_ok(pat: Seq<char>) -> bool;

/// Relies on `strsim::levenshtein`: the edit distance of the two strings.
#[verifier::external_body]
pub fn levenshtein(a: &str, b: &str) -> (r: usize)
    ensures
        r == levenshtein_of(a@, b@),
{
    strsim::levenshtein(a, b)
}

/// Relies on `str::to_ascii_lowercase`: a function of the characters alone.
#[verifier::external_body]
pub fn ascii_lower(s: &str) -> (r: String)
    ensures
        r@ == ascii_lower_of(s@),
{
    s.to_ascii_lowercase()
}

/// How a string atom matches a field.
#[derive(Debug, Clone, PartialEq, Eq)]
pub enum StringFilter {
    /// The field equals the literal.
    Equals(String),
    /// The field is within the given edit distance of the literal.
    Similar(String, usize),
    /// The field begins with the literal.
    Prefix(String),
    /// The field ends with the literal.
    Suffix(String),
    /// The field contains the literal.
    Contains(String),
    /// The field matches the regex, kept as its pattern text.
    Regex(String),
}

/// `t` occurs inside `s`.
pub open spec fn spec_contains_str(s: Seq<char>, t: Seq<char>) -> bool {
    exists|i: int| 0 <= i <= s.len() - t.len() && #[trigger] s.subrange(i, i + t.len()) == t
}

/// The meaning of a string atom.
pub open spec fn spec_string_matches(f: StringFilter, s: Seq<char>) -> bool {
    match f {
        StringFilter::Equals(t) => s == t@,
        StringFilter::Similar(t, n) => levenshtein_of(s, t@) <= n,
        StringFilter::Prefix(t) => t@.is_prefix_of(s),
        StringFilter::Suffix(t) => t@.is_suffix_of(s),
        StringFilter::Contains(t) => spec_contains_str(s, t@),
        StringFilter::Regex(p) => regex_match_of(p@, s),
    }
}

/// `t` begins `s`.
fn str_prefix(s: &str, t: &str) -> (r: bool)
    ensures
        r == t@.is_prefix_of(s@),
{
    let sn = s.unicode_len();
    let tn = t.unicode_len();
    if tn > sn {
        return false;
    }
    let head = s.substring_char(0, tn);
    let r = str_eq(head, t);
    proof {
        assert(s@.subrange(0, t@.len() as int) == head@);
    }
    r
}

/// `t` ends `s`.
fn str_suffix(s: &str, t: &str) -> (r: bool)
    ensures
        r == t@.is_suffix_of(s@),
{
    let sn = s.unicode_len();
    let tn = t.unicode_len();
    if tn > sn {
        return false;
    }
    let tail = s.substring_char(sn - tn, sn);
    let r = str_eq(tail, t);
    proof {
        assert(s@.subrange(s@.len() - t@.len(), s@.len() as int) == tail@);
    }
    r
}

/// `t` occurs inside `s`.
fn str_contains(s: &str, t: &str) -> (r: bool)
    ensures
        r == spec_contains_str(s@, t@),
{
    let sn = s.unicode_len();
    let tn = t.unicode_len();
    if tn > sn {
        proof {
            assert(!spec_contains_str(s@, t@));
        }
        return false;
    }
    if tn == 0 {
        proof {
            assert(s@.subrange(0, 0int + t@.len()) =~= t@);
        }
        return true;
    }
    let mut i: usize = 0;
    while i <= sn - tn
        invariant
            1 <= tn <= sn,
            sn == s@.len(),
            tn == t@.len(),
            i <= sn - tn + 1,
            forall|j: int| 0 <= j < i ==> #[trigger] s@.subrange(j, j + t@.len()) != t@,
        decreases sn - tn + 1 - i,
    {
        let win = s.substring_char(i, i + tn);
        if str_eq(win, t) {
            proof {
                assert(s@.subrange(i as int, i + t@.len()) == t@);
            }
            return true;
        }
        i = i + 1;
    }
    proof {
        assert(!spec_contains_str(s@, t@)) by {
            if spec_contains_str(s@, t@) {
                let j = choose|j: int|
                    0 <= j <= s@.len() - t@.len() && #[trigger] s@.subrange(j, j + t@.len())
                        == t@;
                assert(s@.subrange(j, j + t@.len()) != t@);
            }
        }
    }
    false
}

impl StringFilter {
    /// Whether the field value `s` satisfies this atom.
    pub fn matches(&self, s: &str) -> (r: bool)
        ensures
            r == spec_string_matches(*self, s@),
    {
        match self {
            StringFilter::Equals(t) => str_eq(s, t.as_str()),
            StringFilter::Similar(t, n) => levenshtein(s, t.as_str()) <= *n,
            StringFilter::Prefix(t) => str_prefix(s, t.as_str()),
            StringFilter::Suffix(t) => str_suffix(s, t.as_str()),
            StringFilter::Contains(t) => str_contains(s, t.as_str()),
            StringFilter::Regex(p) => regex_is_match(p.as_str(), s),
        }
    }
}

/// A number atom: an exact value or a half-open range.
#[derive(Debug, Clone, Copy, PartialEq, Eq, Structural)]
pub enum NumberFilter {
    Equals(u16),
    Range(u16, u16),
}

/// The meaning of a number atom.
pub open spec fn spec_number_matches(f: NumberFilter, n: u16) -> bool {
    match f {
        NumberFilter::Equals(m) => m == n,
        NumberFilter::Range(a, b) => a <= n < b,
    }
}

impl NumberFilter {
    pub fn matches(&self, n: u16) -> (r: bool)
        ensures
            r == spec_number_matches(*self, n),
    {
        match *self {
            NumberFilter::Equals(m) => m == n,
            NumberFilter::Range(a, b) => a <= n && n < b,
        }
    }
}

/// One octet pattern of an address atom: fixed bits under a mask.
#[derive(Debug, Clone, Copy, PartialEq, Eq, Structural)]
pub struct IpBlock {
    pub bits: u8,
    pub mask: u8,
}

impl IpBlock {
    /// Matches any value in this octet.
    pub fn any() -> (r: IpBlock)
        ensures
            r.bits == 0 && r.mask == 0,
    {
        IpBlock { bits: 0, mask: 0 }
    }

    /// Matches exactly `n` in this octet.
    pub fn byte(n: u8) -> (r: IpBlock)
        ensures
            r.bits == n && r.mask == 255,
    {
        IpBlock { bits: n, mask: 255 }
    }
}

/// An address atom: fixed bits under a mask, on the v4-mapped v6 address.
#[derive(Debug, Clone, Copy, PartialEq, Eq, Structural)]
pub struct IpFilter {
    pub bits: u128,
    pub mask: u128,
}

/// The meaning of an address atom: the masked bits agree.
pub open spec fn spec_ip_matches(f: IpFilter, ip: u128) -> bool {
    (ip ^ f.bits) & f.mask == 0
}

impl IpFilter {
    /// The filter for a dotted v4 pattern: the mapping prefix is pinned and
    /// each octet contributes its bits and mask.
    pub fn ipv4(a: IpBlock, b: IpBlock, c: IpBlock, d: IpBlock) -> (r: IpFilter)
        ensures
            r.bits == a.bits as u128 * 0x1000000 + b.bits as u128 * 0x10000 + c.bits as u128
                * 0x100 + d.bits as u128 + 0xffff_0000_0000u128,
            r.mask == a.mask as u128 * 0x1000000 + b.mask as u128 * 0x10000 + c.mask as u128
                * 0x100 + d.mask as u128 + 0xffffffff_ffffffff_ffffffff_00000000u128,
    {
        let bits = a.bits as u128 * 0x1000000 + b.bits as u128 * 0x10000 + c.bits as u128 * 0x100
            + d.bits as u128 + 0xffff_0000_0000u128;
        let mask = a.mask as u128 * 0x1000000 + b.mask as u128 * 0x10000 + c.mask as u128 * 0x100
            + d.mask as u128 + 0xffffffff_ffffffff_ffffffff_00000000u128;
        IpFilter { bits, mask }
    }

    pub fn matches(&self, ip: u128) -> (r: bool)
        ensures
            r == spec_ip_matches(*self, ip),
    {
        (ip ^ self.bits) & self.mask == 0
    }
}

/// What relative time atoms are evaluated against.
pub struct FilterCtx {
    pub now: u64,
}

impl FilterCtx {
    /// A context for a known clock reading; the caller supplies the time.
    pub fn at(now: u64) -> (r: FilterCtx)
        ensures
            r.now == now,
    {
        FilterCtx { now }
    }
}

/// A point in time: absolute seconds, or an offset from now.
#[derive(Debug, Clone, Copy, PartialEq, Eq, Structural)]
pub enum TimeSpec {
    Relative(i64),
    Absolute(u64),
}

/// A time atom: a half-open interval with optional ends.
#[derive(Debug, Clone, Copy, PartialEq, Eq, Structural)]
pub struct TimeFilter {
    pub start: Option<TimeSpec>,
    pub end: Option<TimeSpec>,
}

/// A bound resolved against the clock; relative offsets wrap as the
/// two's-complement addition of unsigned time arithmetic.
pub open spec fn spec_time_bound(now: u64, t: TimeSpec) -> u64 {
    match t {
        TimeSpec::Absolute(a) => a,
        TimeSpec::Relative(dt) => crate::types::spec_wrap_add64(now, dt as u64),
    }
}

/// The meaning of a time atom.
pub open spec fn spec_time_matches(f: TimeFilter, now: u64, t: u64) -> bool {
    (match f.start {
        None => true,
        Some(s) => t >= spec_time_bound(now, s),
    }) && (match f.end {
        None => true,
        Some(e) => t < spec_time_bound(now, e),
    })
}

impl TimeFilter {
    pub fn after(t: TimeSpec) -> (r: TimeFilter)
        ensures
            r.start == Some(t) && r.end is None,
    {
        TimeFilter { start: Some(t), end: None }
    }

    pub fn before(t: TimeSpec) -> (r: TimeFilter)
        ensures
            r.start is None && r.end == Some(t),
    {
        TimeFilter { start: None, end: Some(t) }
    }

    pub fn between(a: TimeSpec, b: TimeSpec) -> (r: TimeFilter)
        ensures
            r.start == Some(a) && r.end == Some(b),
    {
        TimeFilter { start: Some(a), end: Some(b) }
    }

    pub fn matches(&self, ctx: &FilterCtx, t: u64) -> (r: bool)
        ensures
            r == spec_time_matches(*self, ctx.now, t),
    {
        let c1 = match self.start {
            None => true,
            Some(s) => t >= time_bound(ctx.now, s),
        };
        let c2 = match self.end {
            None => true,
            Some(e) => t < time_bound(ctx.now, e),
        };
        c1 && c2
    }
}

/// Resolves one bound against the clock.
fn time_bound(now: u64, t: TimeSpec) -> (r: u64)
    ensures
        r == spec_time_bound(now, t),
{
    match t {
        TimeSpec::Absolute(a) => a,
        TimeSpec::Relative(dt) => {
            let d = dt as u64;
            if d <= u64::MAX - now {
                now + d
            } else {
                d - (u64::MAX - now) - 1
            }
        },
    }
}

/// A scheme atom.
#[derive(Debug, Clone, Copy, PartialEq, Eq, Structural)]
pub enum ProtoFilter {
    Http,
    Https,
}

/// The meaning of a scheme atom: an unknown scheme matches either.
pub open spec fn spec_proto_matches(f: ProtoFilter, proto: u16) -> bool {
    proto == Protocol::Unknown.spec_code() || proto == (match f {
        ProtoFilter::Http => Protocol::Http.spec_code(),
        ProtoFilter::Https => Protocol::Https.spec_code(),
    })
}

impl ProtoFilter {
    pub fn matches(&self, proto: u16) -> (r: bool)
        ensures
            r == spec_proto_matches(*self, proto),
    {
        proto == 0 || proto == (match self {
            ProtoFilter::Http => 1u16,
            ProtoFilter::Https => 2u16,
        })
    }
}

/// A header atom: a (lowercased) header name and a string atom on its
/// value.
#[derive(Debug, PartialEq, Eq)]
pub struct HeaderFilter {
    pub header: String,
    pub filter: StringFilter,
}

/// The meaning of a header atom over the split header pairs.
pub open spec fn spec_header_matches(
    f: HeaderFilter,
    pairs: Seq<(Seq<char>, Seq<char>)>,
) -> bool {
    exists|i: int|
        0 <= i < pairs.len() && (#[trigger] pairs[i]).0 == f.header@ && spec_string_matches(
            f.filter,
            pairs[i].1,
        )
}

impl HeaderFilter {
    /// Builds the atom, lowercasing the header name as header keys compare
    /// case-insensitively.
    pub fn new(header: &str, filter: StringFilter) -> (r: HeaderFilter)
        ensures
            r.header@ == ascii_lower_of(header@),
            r.filter == filter,
    {
        HeaderFilter { header: ascii_lower(header), filter }
    }

    pub fn matches(&self, pairs: &Vec<(String, String)>) -> (r: bool)
        ensures
            r == spec_header_matches(*self, pairs.deep_view()),
    {
        let mut i: usize = 0;
        while i < pairs.len()
            invariant
                i <= pairs@.len(),
                forall|j: int|
                    0 <= j < i ==> !((#[trigger] pairs.deep_view()[j]).0 == self.header@
                        && spec_string_matches(self.filter, pairs.deep_view()[j].1)),
            decreases pairs@.len() - i,
        {
            if str_eq(pairs[i].0.as_str(), self.header.as_str()) && self.filter.matches(
                pairs[i].1.as_str(),
            ) {
                proof {
                    assert((pairs.deep_view()[i as int]).0 == self.header@);
                }
                return true;
            }
            proof {
                assert(pairs.deep_view()[i as int].0 == pairs@[i as int].0@);
            }
            i = i + 1;
        }
        false
    }
}

/// One field atom.
#[derive(Debug, PartialEq, Eq)]
pub enum FieldFilter {
    Status(NumberFilter),
    Method(StringFilter),
    Uri(StringFilter),
    Ip(IpFilter),
    Port(NumberFilter),
    Time(TimeFilter),
    Host(StringFilter),
    Proto(ProtoFilter),
    Header(HeaderFilter),
}

/// Boolean combinators over filters, as a builder shape: `Filter` stores
/// the same combinators directly.
#[derive(Debug, PartialEq, Eq)]
pub enum Combinations {
    Not(Box<Filter>),
    And(Vec<Filter>),
    Or(Vec<Filter>),
    Xor(Vec<Filter>),
}

/// A filter: one atom, or a boolean combination.
#[derive(Debug, PartialEq, Eq)]
pub enum Filter {
    Field(FieldFilter),
    Not(Box<Filter>),
    And(Vec<Filter>),
    Or(Vec<Filter>),
    Xor(Vec<Filter>),
}

/// The meaning of a field atom against one record.
pub open spec fn spec_field_matches(f: FieldFilter, now: u64, e: Record) -> bool {
    match f {
        FieldFilter::Status(n) => spec_number_matches(n, e.status),
        FieldFilter::Method(s) => spec_string_matches(s, e.method),
        FieldFilter::Uri(s) => spec_string_matches(s, e.uri),
        FieldFilter::Ip(i) => spec_ip_matches(i, e.ip),
        FieldFilter::Port(n) => spec_number_matches(n, e.port),
        FieldFilter::Time(t) => spec_time_matches(t, now, e.time),
        FieldFilter::Host(s) => spec_string_matches(s, e.host),
        FieldFilter::Proto(p) => spec_proto_matches(p, e.proto.spec_code()),
        FieldFilter::Header(h) => spec_header_matches(h, crate::spec_split_headers(e.headers)),
    }
}

/// The meaning of a filter against one record: atoms on fields, `!` as
/// negation, `&`, `|` and `^` folded over the operands.
pub open spec fn spec_filter_matches(f: Filter, now: u64, e: Record) -> bool
    decreases f, 1int,
{
    match f {
        Filter::Field(a) => spec_field_matches(a, now, e),
        Filter::Not(g) => !spec_filter_matches(*g, now, e),
        Filter::And(v) => forall|i: int|
            0 <= i < v@.len() ==> spec_filter_matches(#[trigger] v@[i], now, e),
        Filter::Or(v) => exists|i: int|
            0 <= i < v@.len() && spec_filter_matches(#[trigger] v@[i], now, e),
        Filter::Xor(v) => spec_xor_fold(v@, now, e),
    }
}

/// Exclusive-or folded left over the operands.
pub open spec fn spec_xor_fold(v: Seq<Filter>, now: u64, e: Record) -> bool
    decreases v, 0int,
{
    if v.len() == 0 {
        false
    } else {
        spec_xor_fold(v.drop_last(), now, e) ^ spec_filter_matches(v.last(), now, e)
    }
}

impl Filter {
    /// Wraps a combination, keeping the builder shape callers write.
    #[allow(non_snake_case)]
    pub fn Combination(c: Combinations) -> (r: Filter)
        ensures
            r == spec_combination(c),
    {
        match c {
            Combinations::Not(g) => Filter::Not(g),
            Combinations::And(v) => Filter::And(v),
            Combinations::Or(v) => Filter::Or(v),
            Combinations::Xor(v) => Filter::Xor(v),
        }
    }

    /// Whether the record satisfies the filter under the given clock.
    pub fn matches(&self, ctx: &FilterCtx, entry: &RequestEntry) -> (r: bool)
        ensures
            r == spec_filter_matches(*self, ctx.now, entry@),
        decreases *self,
    {
        match self {
            Filter::Field(f) => match f {
                FieldFilter::Status(n) => n.matches(entry.status),
                FieldFilter::Method(s) => s.matches(entry.method.as_str()),
                FieldFilter::Uri(s) => s.matches(entry.uri.as_str()),
                FieldFilter::Ip(i) => i.matches(entry.ip),
                FieldFilter::Port(n) => n.matches(entry.port),
                FieldFilter::Time(t) => t.matches(ctx, entry.time),
                FieldFilter::Host(s) => s.matches(entry.host.as_str()),
                FieldFilter::Proto(p) => p.matches(entry.proto.code()),
                FieldFilter::Header(h) => {
                    let pairs = entry.headers.split();
                    h.matches(&pairs)
                },
            },
            Filter::Not(g) => {
                proof {
                    assert(decreases_to!(*self => self->Not_0));
                }
                !g.matches(ctx, entry)
            },
            Filter::And(v) => {
                let mut i: usize = 0;
                while i < v.len()
                    invariant
                        i <= v@.len(),
                        *self is And,
                        v == self->And_0,
                        forall|j: int|
                            0 <= j < i ==> spec_filter_matches(#[trigger] v@[j], ctx.now, entry@),
                    decreases v@.len() - i,
                {
                    proof {
                        assert(decreases_to!(*self => self->And_0));
                        assert(decreases_to!(self->And_0 => self->And_0@));
                        assert(decreases_to!(self->And_0@ => self->And_0@[i as int]));
                    }
                    if !v[i].matches(ctx, entry) {
                        return false;
                    }
                    i = i + 1;
                }
                true
            },
            Filter::Or(v) => {
                let mut i: usize = 0;
                while i < v.len()
                    invariant
                        i <= v@.len(),
                        *self is Or,
                        v == self->Or_0,
                        forall|j: int|
                            0 <= j < i ==> !spec_filter_matches(
                                #[trigger] v@[j],
                                ctx.now,
                                entry@,
                            ),
                    decreases v@.len() - i,
                {
                    proof {
                        assert(decreases_to!(*self => self->Or_0));
                        assert(decreases_to!(self->Or_0 => self->Or_0@));
                        assert(decreases_to!(self->Or_0@ => self->Or_0@[i as int]));
                    }
                    if v[i].matches(ctx, entry) {
                        return true;
                    }
                    i = i + 1;
                }
                false
            },
            Filter::Xor(v) => {
                let mut acc = false;
                let mut i: usize = 0;
                while i < v.len()
                    invariant
                        i <= v@.len(),
                        *self is Xor,
                        v == self->Xor_0,
                        acc == spec_xor_fold(v@.take(i as int), ctx.now, entry@),
                    decreases v@.len() - i,
                {
                    proof {
                        assert(decreases_to!(*self => self->Xor_0));
                        assert(decreases_to!(self->Xor_0 => self->Xor_0@));
                        assert(decreases_to!(self->Xor_0@ => self->Xor_0@[i as int]));
                    }
                    let b = v[i].matches(ctx, entry);
                    proof {
                        assert(v@.take(i + 1).drop_last() =~= v@.take(i as int));
                        assert(v@.take(i + 1).last() == v@[i as int]);
                    }
                    acc = acc ^ b;
                    i = i + 1;
                }
                proof {
                    assert(v@.take(v@.len() as int) =~= v@);
                }
                acc
            },
        }
    }
}

/// The filter a combination value stands for.
pub open spec fn spec_combination(c: Combinations) -> Filter {
    match c {
        Combinations::Not(g) => Filter::Not(g),
        Combinations::And(v) => Filter::And(v),
        Combinations::Or(v) => Filter::Or(v),
        Combinations::Xor(v) => Filter::Xor(v),
    }
}


/// Why a filter text was refused.
#[derive(Debug, Clone, Copy, PartialEq, Eq, Structural)]
pub enum FilterParseError {
    /// A regex literal does not compile.
    Regex,
    /// A number is out of range.
    ParseInt,
    /// A date is not a calendar date.
    Date,
    /// The text does not follow the grammar.
    Syntax,
}

/// Relies on `time::Date::from_calendar_date` and
/// `PrimitiveDateTime::assume_utc`: the midnight timestamps of a calendar
/// day and of the next day are functions of the date alone; `None` stands
/// for an invalid date.
#[verifier::external_body]
pub fn day_bounds(y: i32, mo: u8, d: u8) -> (r: Option<(i64, Option<i64>)>)
    ensures
        r == day_bounds_of(y as int, mo as int, d as int),
{
    let month = time::Month::try_from(mo).ok()?;
    let date = time::Date::from_calendar_date(y, month, d).ok()?;
    let midnight = |d: time::Date| {
        time::PrimitiveDateTime::new(d, time::Time::MIDNIGHT).assume_utc().unix_timestamp()
    };
    Some((midnight(date), date.next_day().map(midnight)))
}

/// The half-open day interval of a calendar date, in unix seconds.
pub uninterp spec fn day_bounds_of(y: int, mo: int, d: int) -> Option<(i64, Option<i64>)>;

/// A cursor over the characters of a filter text.
struct Lexer {
    chars: Vec<char>,
    pos: usize,
}

/// The first index at or past `p` that holds no space.
pub open spec fn spec_ws_end(cs: Seq<char>, p: int) -> int
    decreases cs.len() - p,
{
    if 0 <= p < cs.len() && cs[p] == ' ' {
        spec_ws_end(cs, p + 1)
    } else {
        p
    }
}

/// Whether `c` may stand in a bare word: keywords and numbers.
pub open spec fn spec_is_ident_char(c: char) -> bool {
    ('a' <= c && c <= 'z') || ('A' <= c && c <= 'Z') || ('0' <= c && c <= '9') || c == '_'
}

/// The end of the bare word starting at `p`.
pub open spec fn spec_ident_end(cs: Seq<char>, p: int) -> int
    decreases cs.len() - p,
{
    if 0 <= p < cs.len() && spec_is_ident_char(cs[p]) {
        spec_ident_end(cs, p + 1)
    } else {
        p
    }
}

/// The keyword that names each field atom.
pub open spec fn spec_kw_of(f: FieldFilter) -> Seq<char> {
    match f {
        FieldFilter::Status(_) => "status"@,
        FieldFilter::Method(_) => "method"@,
        FieldFilter::Uri(_) => "uri"@,
        FieldFilter::Ip(_) => "ip"@,
        FieldFilter::Port(_) => "port"@,
        FieldFilter::Time(_) => "time"@,
        FieldFilter::Host(_) => "host"@,
        FieldFilter::Proto(_) => "proto"@,
        FieldFilter::Header(_) => "header"@,
    }
}

/// An atom parsed at `p`: a field filter whose constructor is named by the
/// keyword standing at `p` after spaces.
pub open spec fn spec_atom_shape(cs: Seq<char>, p: int, ft: Filter) -> bool {
    let w0 = spec_ws_end(cs, p);
    &&& ft is Field
    &&& cs.subrange(w0, spec_ident_end(cs, w0)) == spec_kw_of(ft->Field_0)
}

/// A field atom, possibly under negations.
pub open spec fn spec_is_unary(f: Filter) -> bool
    decreases f,
{
    match f {
        Filter::Field(_) => true,
        Filter::Not(b) => spec_is_unary(*b),
        _ => false,
    }
}

/// A unary filter parsed at `p`: each `!` stands in the text before its
/// operand, and the atom's keyword names its constructor.
pub open spec fn spec_unary_of(cs: Seq<char>, p: int, f: Filter) -> bool
    decreases f,
{
    match f {
        Filter::Not(b) => {
            let w0 = spec_ws_end(cs, p);
            0 <= w0 < cs.len() && cs[w0] == '!' && spec_unary_of(cs, w0 + 1, *b)
        },
        _ => spec_atom_shape(cs, p, f),
    }
}

/// What a parse of the whole text returns: one unary filter, or one n-ary
/// combinator over at least two unary filters, never a combinator inside a
/// combinator; the first operand starts the text.
pub open spec fn spec_parsed_shape(cs: Seq<char>, f: Filter) -> bool {
    match f {
        Filter::And(v) => v@.len() >= 2 && spec_unary_of(cs, 0, v@[0]) && (forall|i: int|
            0 <= i < v@.len() ==> spec_is_unary(#[trigger] v@[i])),
        Filter::Or(v) => v@.len() >= 2 && spec_unary_of(cs, 0, v@[0]) && (forall|i: int|
            0 <= i < v@.len() ==> spec_is_unary(#[trigger] v@[i])),
        Filter::Xor(v) => v@.len() >= 2 && spec_unary_of(cs, 0, v@[0]) && (forall|i: int|
            0 <= i < v@.len() ==> spec_is_unary(#[trigger] v@[i])),
        _ => spec_unary_of(cs, 0, f) && spec_is_unary(f),
    }
}

impl Lexer {
    spec fn wf(&self) -> bool {
        self.pos <= self.chars@.len() && self.chars@.len() <= usize::MAX
    }

    fn new(s: &str) -> (r: Lexer)
        ensures
            r.wf(),
            r.chars@ == s@,
            r.pos == 0,
    {
        let n = s.unicode_len();
        let mut chars: Vec<char> = Vec::new();
        let mut i: usize = 0;
        while i < n
            invariant
                i <= n,
                n == s@.len(),
                chars@.len() == i,
                chars@ =~= s@.subrange(0, i as int),
            decreases n - i,
        {
            chars.push(s.get_char(i));
            proof {
                assert(chars@ =~= s@.subrange(0, i + 1));
            }
            i = i + 1;
        }
        proof {
            assert(s@.subrange(0, n as int) =~= s@);
        }
        Lexer { chars, pos: 0 }
    }

    fn peek(&self) -> (r: Option<char>)
        requires
            self.wf(),
        ensures
            r == (if self.pos < self.chars@.len() {
                Some(self.chars@[self.pos as int])
            } else {
                None::<char>
            }),
    {
        if self.pos < self.chars.len() {
            Some(self.chars[self.pos])
        } else {
            None
        }
    }

    fn bump(&mut self)
        requires
            old(self).wf(),
            old(self).pos < old(self).chars@.len(),
        ensures
            final(self).wf(),
            final(self).chars == old(self).chars,
            final(self).pos == old(self).pos + 1,
    {
        self.pos = self.pos + 1;
    }

    fn skip_ws(&mut self)
        requires
            old(self).wf(),
        ensures
            final(self).wf(),
            final(self).chars == old(self).chars,
            final(self).pos >= old(self).pos,
            final(self).pos == spec_ws_end(old(self).chars@, old(self).pos as int),
    {
        while self.pos < self.chars.len() && self.chars[self.pos] == ' '
            invariant
                self.wf(),
                self.chars == old(self).chars,
                self.pos >= old(self).pos,
                spec_ws_end(self.chars@, old(self).pos as int) == spec_ws_end(
                    self.chars@,
                    self.pos as int,
                ),
            decreases self.chars@.len() - self.pos,
        {
            self.pos = self.pos + 1;
        }
    }

    /// Consumes the bare word under the cursor, returning it.
    fn take_while_ident(&mut self) -> (r: Vec<char>)
        requires
            old(self).wf(),
        ensures
            final(self).wf(),
            final(self).chars == old(self).chars,
            final(self).pos >= old(self).pos,
            final(self).pos == spec_ident_end(old(self).chars@, old(self).pos as int),
            r@ == old(self).chars@.subrange(old(self).pos as int, final(self).pos as int),
    {
        let mut out: Vec<char> = Vec::new();
        while self.pos < self.chars.len() && is_ident_char(self.chars[self.pos])
            invariant
                self.wf(),
                self.chars == old(self).chars,
                self.pos >= old(self).pos,
                spec_ident_end(self.chars@, old(self).pos as int) == spec_ident_end(
                    self.chars@,
                    self.pos as int,
                ),
                out@ =~= self.chars@.subrange(old(self).pos as int, self.pos as int),
            decreases self.chars@.len() - self.pos,
        {
            out.push(self.chars[self.pos]);
            self.pos = self.pos + 1;
            proof {
                assert(out@ =~= self.chars@.subrange(old(self).pos as int, self.pos as int));
            }
        }
        out
    }

    /// A bare literal: everything to the next space or end.
    fn take_bare(&mut self) -> (r: Vec<char>)
        requires
            old(self).wf(),
        ensures
            final(self).wf(),
            final(self).chars == old(self).chars,
            final(self).pos >= old(self).pos,
    {
        let mut out: Vec<char> = Vec::new();
        while self.pos < self.chars.len() && self.chars[self.pos] != ' '
            invariant
                self.wf(),
                self.chars == old(self).chars,
                self.pos >= old(self).pos,
            decreases self.chars@.len() - self.pos,
        {
            out.push(self.chars[self.pos]);
            self.pos = self.pos + 1;
        }
        out
    }

    /// A quoted string after the opening quote, handling the escapes the
    /// grammar accepts.
    fn take_quoted(&mut self) -> (r: Result<Vec<char>, FilterParseError>)
        requires
            old(self).wf(),
        ensures
            final(self).wf(),
            final(self).chars == old(self).chars,
            final(self).pos >= old(self).pos,
    {
        let mut out: Vec<char> = Vec::new();
        while self.pos < self.chars.len()
            invariant
                self.wf(),
                self.chars == old(self).chars,
                self.pos >= old(self).pos,
            decreases self.chars@.len() - self.pos,
        {
            let c = self.chars[self.pos];
            self.pos = self.pos + 1;
            if c == '"' {
                return Ok(out);
            }
            if c == '\\' {
                if self.pos >= self.chars.len() {
                    return Err(FilterParseError::Syntax);
                }
                let e = self.chars[self.pos];
                self.pos = self.pos + 1;
                if e == '\\' || e == '"' {
                    out.push(e);
                } else if e == 'n' {
                    out.push('\n');
                } else if e == 'r' {
                    out.push('\r');
                } else if e == 't' {
                    out.push('\t');
                } else {
                    return Err(FilterParseError::Syntax);
                }
            } else {
                out.push(c);
            }
        }
        Err(FilterParseError::Syntax)
    }
}

/// Characters of bare words: keywords and numbers.
fn is_ident_char(c: char) -> (r: bool)
    ensures
        r == spec_is_ident_char(c),
{
    (c >= 'a' && c <= 'z') || (c >= 'A' && c <= 'Z') || (c >= '0' && c <= '9') || c == '_'
}

fn is_digit(c: char) -> bool {
    c >= '0' && c <= '9'
}

/// The number a digit stands for.
fn digit_val(c: char) -> (r: u64)
    requires
        '0' <= c <= '9',
    ensures
        r <= 9,
{
    (c as u32 - '0' as u32) as u64
}

/// Parses a decimal number from chars; fails on overflow or no digits.
fn parse_u64_chars(cs: &Vec<char>, start: usize, end: usize) -> (r: Result<u64, FilterParseError>)
    requires
        start <= end <= cs@.len(),
{
    if start >= end {
        return Err(FilterParseError::Syntax);
    }
    let mut acc: u64 = 0;
    let mut i = start;
    while i < end
        invariant
            start <= i <= end,
            end <= cs@.len(),
        decreases end - i,
    {
        let c = cs[i];
        if !(c >= '0' && c <= '9') {
            return Err(FilterParseError::Syntax);
        }
        if acc > 0x1999_9999_9999_9999u64 {
            return Err(FilterParseError::ParseInt);
        }
        let d = digit_val(c);
        if acc * 10 > u64::MAX - d {
            return Err(FilterParseError::ParseInt);
        }
        acc = acc * 10 + d;
        i = i + 1;
    }
    Ok(acc)
}

/// Turns collected characters into a string through their UTF-8 bytes.
fn chars_to_string(cs: &Vec<char>) -> (r: String)
    ensures
        r@ == cs@,
{
    let mut out = String::new();
    let mut buf: Vec<u8> = Vec::new();
    let mut i: usize = 0;
    while i < cs.len()
        invariant
            i <= cs@.len(),
            out@ =~= cs@.take(i as int),
        decreases cs@.len() - i,
    {
        let c = cs[i];
        out = push_char(out, c);
        proof {
            assert(out@ =~= cs@.take(i + 1));
        }
        i = i + 1;
    }
    proof {
        assert(cs@.take(cs@.len() as int) =~= cs@);
    }
    out
}

/// Relies on `String::push`: appends exactly one character.
#[verifier::external_body]
fn push_char(s: String, c: char) -> (r: String)
    ensures
        r@ == s@.push(c),
{
    let mut s = s;
    s.push(c);
    s
}


/// Compares collected characters to a keyword.
fn kw_is(cs: &Vec<char>, lit: &str) -> (r: bool)
    ensures
        r == (cs@ == lit@),
{
    let s = chars_to_string(cs);
    str_eq(s.as_str(), lit)
}

/// Parses one string atom: bare or quoted literal, a trailing `*` for a
/// prefix, leading `*` for a suffix, both for contains, `r"..."` for a
/// regex, `~N "..."` for similarity.
fn parse_string_filter(lex: &mut Lexer) -> (r: Result<StringFilter, FilterParseError>)
    requires
        old(lex).wf(),
    ensures
        final(lex).wf(),
        final(lex).chars == old(lex).chars,
        final(lex).pos >= old(lex).pos,
{
    lex.skip_ws();
    match lex.peek() {
        None => Err(FilterParseError::Syntax),
        Some(c) => {
            if c == '*' {
                lex.bump();
                lex.skip_ws();
                let lit = match parse_core_lit(lex) { Ok(l) => l, Err(e) => { return Err(e); } };
                lex.skip_ws();
                match lex.peek() {
                    Some(d) => {
                        if d == '*' {
                            lex.bump();
                            Ok(StringFilter::Contains(lit))
                        } else {
                            Ok(StringFilter::Suffix(lit))
                        }
                    },
                    None => Ok(StringFilter::Suffix(lit)),
                }
            } else if c == '~' {
                lex.bump();
                lex.skip_ws();
                let digits = lex.take_while_ident();
                let n = match parse_u64_chars(&digits, 0, digits.len()) { Ok(x) => x, Err(e) => { return Err(e); } };
                if n > usize::MAX as u64 {
                    return Err(FilterParseError::ParseInt);
                }
                lex.skip_ws();
                match lex.peek() {
                    Some(q) => {
                        if q == '"' {
                            lex.bump();
                            let cs = match lex.take_quoted() {
                                Ok(x) => x,
                                Err(e) => {
                                    return Err(e);
                                },
                            };
                            Ok(StringFilter::Similar(chars_to_string(&cs), n as usize))
                        } else {
                            Err(FilterParseError::Syntax)
                        }
                    },
                    None => Err(FilterParseError::Syntax),
                }
            } else {
                let lit = match parse_core_lit(lex) { Ok(l) => l, Err(e) => { return Err(e); } };
                lex.skip_ws();
                match lex.peek() {
                    Some(d) => {
                        if d == '*' {
                            lex.bump();
                            Ok(StringFilter::Prefix(lit))
                        } else {
                            Ok(StringFilter::Equals(lit))
                        }
                    },
                    None => Ok(StringFilter::Equals(lit)),
                }
            }
        },
    }
}

/// A core literal: `r"..."` regex, a quoted string, or a bare word up to
/// the next space.
fn parse_core_lit(lex: &mut Lexer) -> (r: Result<String, FilterParseError>)
    requires
        old(lex).wf(),
    ensures
        final(lex).wf(),
        final(lex).chars == old(lex).chars,
        final(lex).pos >= old(lex).pos,
{
    match lex.peek() {
        None => Err(FilterParseError::Syntax),
        Some(c) => {
            if c == '"' {
                lex.bump();
                let cs = match lex.take_quoted() { Ok(x) => x, Err(e) => { return Err(e); } };
                Ok(chars_to_string(&cs))
            } else {
                let cs = lex.take_bare();
                if cs.len() == 0 {
                    Err(FilterParseError::Syntax)
                } else {
                    Ok(chars_to_string(&cs))
                }
            }
        },
    }
}

/// A regex literal `r"..."`, validated by the regex engine.
fn parse_regex_body(lex: &mut Lexer) -> (r: Result<String, FilterParseError>)
    requires
        old(lex).wf(),
    ensures
        final(lex).wf(),
        final(lex).chars == old(lex).chars,
        final(lex).pos >= old(lex).pos,
        r matches Ok(p) ==> regex_ok(p@),
{
    let cs = match lex.take_quoted() { Ok(x) => x, Err(e) => { return Err(e); } };
    let pat = chars_to_string(&cs);
    if !regex_compiles(pat.as_str()) {
        return Err(FilterParseError::Regex);
    }
    Ok(pat)
}

/// A number atom: `N` or `N..M`, spaces allowed around the dots.
fn parse_number_filter(lex: &mut Lexer) -> (r: Result<NumberFilter, FilterParseError>)
    requires
        old(lex).wf(),
    ensures
        final(lex).wf(),
        final(lex).chars == old(lex).chars,
        final(lex).pos >= old(lex).pos,
{
    lex.skip_ws();
    let digits = lex.take_while_ident();
    let a = match parse_u64_chars(&digits, 0, digits.len()) { Ok(x) => x, Err(e) => { return Err(e); } };
    if a > u16::MAX as u64 {
        return Err(FilterParseError::ParseInt);
    }
    lex.skip_ws();
    match lex.peek() {
        Some(c) => {
            if c == '.' {
                lex.bump();
                match lex.peek() {
                    Some(d) => {
                        if d == '.' {
                            lex.bump();
                            lex.skip_ws();
                            let digits2 = lex.take_while_ident();
                            let b = match parse_u64_chars(&digits2, 0, digits2.len()) {
                                Ok(x) => x,
                                Err(e) => {
                                    return Err(e);
                                },
                            };
                            if b > u16::MAX as u64 {
                                return Err(FilterParseError::ParseInt);
                            }
                            Ok(NumberFilter::Range(a as u16, b as u16))
                        } else {
                            Err(FilterParseError::Syntax)
                        }
                    },
                    None => Err(FilterParseError::Syntax),
                }
            } else {
                Ok(NumberFilter::Equals(a as u16))
            }
        },
        None => Ok(NumberFilter::Equals(a as u16)),
    }
}

/// One octet of a dotted pattern.
fn parse_ip_block(cs: &Vec<char>, start: usize, end: usize) -> (r: Result<
    IpBlock,
    FilterParseError,
>)
    requires
        start <= end <= cs@.len(),
{
    if end - start == 1 && cs[start] == '*' {
        return Ok(IpBlock::any());
    }
    let n = match parse_u64_chars(cs, start, end) { Ok(x) => x, Err(e) => { return Err(e); } };
    if n > 255 {
        return Err(FilterParseError::ParseInt);
    }
    Ok(IpBlock::byte(n as u8))
}

/// A dotted v4 pattern with `*` wildcards.
fn parse_ip_filter(lex: &mut Lexer) -> (r: Result<IpFilter, FilterParseError>)
    requires
        old(lex).wf(),
    ensures
        final(lex).wf(),
        final(lex).chars == old(lex).chars,
        final(lex).pos >= old(lex).pos,
{
    lex.skip_ws();
    let cs = lex.take_bare();
    let n = cs.len();
    let mut dots: Vec<usize> = Vec::new();
    let mut i: usize = 0;
    while i < n
        invariant
            i <= n,
            n == cs@.len(),
            forall|k: int| 0 <= k < dots@.len() ==> #[trigger] dots@[k] < n,
        decreases n - i,
    {
        if cs[i] == '.' {
            dots.push(i);
        }
        i = i + 1;
    }
    if dots.len() != 3 {
        return Err(FilterParseError::Syntax);
    }
    let d0 = dots[0];
    let d1 = dots[1];
    let d2 = dots[2];
    if !(d0 < d1 && d1 < d2 && d2 < n) {
        return Err(FilterParseError::Syntax);
    }
    let a = match parse_ip_block(&cs, 0, d0) { Ok(x) => x, Err(e) => { return Err(e); } };
    let b = match parse_ip_block(&cs, d0 + 1, d1) { Ok(x) => x, Err(e) => { return Err(e); } };
    let c = match parse_ip_block(&cs, d1 + 1, d2) { Ok(x) => x, Err(e) => { return Err(e); } };
    let d = match parse_ip_block(&cs, d2 + 1, n) { Ok(x) => x, Err(e) => { return Err(e); } };
    Ok(IpFilter::ipv4(a, b, c, d))
}

/// A time atom: a calendar day, an absolute timestamp, or a relative
/// offset in seconds (negative for the past).
fn parse_time_filter(lex: &mut Lexer) -> (r: Result<TimeFilter, FilterParseError>)
    requires
        old(lex).wf(),
    ensures
        final(lex).wf(),
        final(lex).chars == old(lex).chars,
        final(lex).pos >= old(lex).pos,
{
    lex.skip_ws();
    let cs = lex.take_bare();
    let n = cs.len();
    if n == 0 {
        return Err(FilterParseError::Syntax);
    }
    if cs[0] == '-' || cs[0] == '+' {
        let mag = match parse_u64_chars(&cs, 1, n) { Ok(x) => x, Err(e) => { return Err(e); } };
        if mag > i64::MAX as u64 {
            return Err(FilterParseError::ParseInt);
        }
        let dt: i64 = if cs[0] == '-' {
            -(mag as i64)
        } else {
            mag as i64
        };
        return Ok(TimeFilter::after(TimeSpec::Relative(dt)));
    }
    // count dashes for a date
    let mut dashes: Vec<usize> = Vec::new();
    let mut i: usize = 0;
    while i < n
        invariant
            i <= n,
            n == cs@.len(),
            forall|k: int| 0 <= k < dashes@.len() ==> #[trigger] dashes@[k] < n,
        decreases n - i,
    {
        if cs[i] == '-' {
            dashes.push(i);
        }
        i = i + 1;
    }
    if dashes.len() == 2 {
        let d0 = dashes[0];
        let d1 = dashes[1];
        if !(d0 < d1 && d1 < n) {
            return Err(FilterParseError::Syntax);
        }
        let y = match parse_u64_chars(&cs, 0, d0) { Ok(x) => x, Err(e) => { return Err(e); } };
        let mo = match parse_u64_chars(&cs, d0 + 1, d1) { Ok(x) => x, Err(e) => { return Err(e); } };
        let d = match parse_u64_chars(&cs, d1 + 1, n) { Ok(x) => x, Err(e) => { return Err(e); } };
        if y > 9999 || mo > 12 || d > 31 {
            return Err(FilterParseError::Date);
        }
        match day_bounds(y as i32, mo as u8, d as u8) {
            None => Err(FilterParseError::Date),
            Some((start, end)) => {
                let sf = TimeSpec::Absolute(start as u64);
                match end {
                    Some(e) => Ok(TimeFilter::between(sf, TimeSpec::Absolute(e as u64))),
                    None => Ok(TimeFilter::after(sf)),
                }
            },
        }
    } else if dashes.len() == 0 {
        let t = parse_u64_chars(&cs, 0, n)?;
        Ok(TimeFilter::after(TimeSpec::Absolute(t)))
    } else {
        Err(FilterParseError::Syntax)
    }
}

/// A header name: everything up to `=`.
fn take_header_name(lex: &mut Lexer) -> (r: Vec<char>)
    requires
        old(lex).wf(),
    ensures
        final(lex).wf(),
        final(lex).chars == old(lex).chars,
        final(lex).pos >= old(lex).pos,
{
    let mut out: Vec<char> = Vec::new();
    while lex.pos < lex.chars.len() && lex.chars[lex.pos] != '=' && lex.chars[lex.pos] != ' '
        invariant
            lex.wf(),
            lex.chars == old(lex).chars,
            lex.pos >= old(lex).pos,
        decreases lex.chars@.len() - lex.pos,
    {
        out.push(lex.chars[lex.pos]);
        lex.pos = lex.pos + 1;
    }
    out
}

/// One field atom, dispatched on its keyword.
/// Skipping spaces twice lands where skipping once does.
proof fn lemma_ws_end_idem(cs: Seq<char>, p: int)
    ensures
        spec_ws_end(cs, spec_ws_end(cs, p)) == spec_ws_end(cs, p),
    decreases cs.len() - p,
{
    if 0 <= p < cs.len() && cs[p] == ' ' {
        lemma_ws_end_idem(cs, p + 1);
    }
}

fn parse_atom(lex: &mut Lexer) -> (r: Result<Filter, FilterParseError>)
    requires
        old(lex).wf(),
    ensures
        final(lex).wf(),
        final(lex).chars == old(lex).chars,
        final(lex).pos >= old(lex).pos,
        r matches Ok(ft) ==> spec_atom_shape(old(lex).chars@, old(lex).pos as int, ft),
{
    lex.skip_ws();
    // a regex literal cannot begin an atom, so a leading word is a keyword
    let kw = lex.take_while_ident();
    if kw_is(&kw, "status") {
        let f = match parse_number_filter(lex) { Ok(x) => x, Err(e) => { return Err(e); } };
        Ok(Filter::Field(FieldFilter::Status(f)))
    } else if kw_is(&kw, "port") {
        let f = match parse_number_filter(lex) { Ok(x) => x, Err(e) => { return Err(e); } };
        Ok(Filter::Field(FieldFilter::Port(f)))
    } else if kw_is(&kw, "method") {
        let f = match parse_string_filter(lex) { Ok(x) => x, Err(e) => { return Err(e); } };
        Ok(Filter::Field(FieldFilter::Method(f)))
    } else if kw_is(&kw, "uri") {
        let f = match parse_uri_like(lex) { Ok(x) => x, Err(e) => { return Err(e); } };
        Ok(Filter::Field(FieldFilter::Uri(f)))
    } else if kw_is(&kw, "host") {
        let f = match parse_uri_like(lex) { Ok(x) => x, Err(e) => { return Err(e); } };
        Ok(Filter::Field(FieldFilter::Host(f)))
    } else if kw_is(&kw, "ip") {
        let f = match parse_ip_filter(lex) { Ok(x) => x, Err(e) => { return Err(e); } };
        Ok(Filter::Field(FieldFilter::Ip(f)))
    } else if kw_is(&kw, "time") {
        let f = match parse_time_filter(lex) { Ok(x) => x, Err(e) => { return Err(e); } };
        Ok(Filter::Field(FieldFilter::Time(f)))
    } else if kw_is(&kw, "proto") {
        lex.skip_ws();
        let w = lex.take_while_ident();
        if kw_is(&w, "http") {
            Ok(Filter::Field(FieldFilter::Proto(ProtoFilter::Http)))
        } else if kw_is(&w, "https") {
            Ok(Filter::Field(FieldFilter::Proto(ProtoFilter::Https)))
        } else {
            Err(FilterParseError::Syntax)
        }
    } else if kw_is(&kw, "header") {
        lex.skip_ws();
        let name = take_header_name(lex);
        if name.len() == 0 {
            return Err(FilterParseError::Syntax);
        }
        match lex.peek() {
            Some(c) => {
                if c == '=' {
                    lex.bump();
                } else {
                    return Err(FilterParseError::Syntax);
                }
            },
            None => {
                return Err(FilterParseError::Syntax);
            },
        }
        let f = match parse_string_filter(lex) { Ok(x) => x, Err(e) => { return Err(e); } };
        let name_s = chars_to_string(&name);
        Ok(Filter::Field(FieldFilter::Header(HeaderFilter::new(name_s.as_str(), f))))
    } else {
        Err(FilterParseError::Syntax)
    }
}

/// A string atom that may be a regex literal (`r"..."`).
fn parse_uri_like(lex: &mut Lexer) -> (r: Result<StringFilter, FilterParseError>)
    requires
        old(lex).wf(),
    ensures
        final(lex).wf(),
        final(lex).chars == old(lex).chars,
        final(lex).pos >= old(lex).pos,
{
    lex.skip_ws();
    if lex.pos < lex.chars.len() && lex.pos + 1 < lex.chars.len() && lex.chars[lex.pos] == 'r'
        && lex.chars[lex.pos + 1] == '"' {
        lex.bump();
        lex.bump();
        let pat = match parse_regex_body(lex) { Ok(x) => x, Err(e) => { return Err(e); } };
        return Ok(StringFilter::Regex(pat));
    }
    parse_string_filter(lex)
}

/// A unary filter: any number of `!` before an atom.
fn parse_unary(lex: &mut Lexer) -> (r: Result<Filter, FilterParseError>)
    requires
        old(lex).wf(),
    ensures
        final(lex).wf(),
        final(lex).chars == old(lex).chars,
        final(lex).pos >= old(lex).pos,
        r matches Ok(f) ==> spec_unary_of(old(lex).chars@, old(lex).pos as int, f)
            && spec_is_unary(f),
    decreases old(lex).chars@.len() - old(lex).pos,
{
    lex.skip_ws();
    proof {
        lemma_ws_end_idem(old(lex).chars@, old(lex).pos as int);
    }
    match lex.peek() {
        Some(c) => {
            if c == '!' {
                lex.bump();
                let inner = match parse_unary(lex) {
                    Ok(x) => x,
                    Err(e) => {
                        return Err(e);
                    },
                };
                Ok(Filter::Not(Box::new(inner)))
            } else {
                parse_atom(lex)
            }
        },
        None => parse_atom(lex),
    }
}

impl Filter {
    /// Parses the textual form: atoms joined by one kind of operator per
    /// level, with `!` binding tightest.  What comes back is one unary
    /// filter or one flattened combinator over at least two of them, each
    /// atom's constructor named by its keyword in the text.
    pub fn parse(s: &str) -> (r: Result<Filter, FilterParseError>)
        ensures
            r matches Ok(f) ==> spec_parsed_shape(s@, f),
    {
        let mut lex = Lexer::new(s);
        let first = match parse_unary(&mut lex) {
            Ok(f) => f,
            Err(e) => {
                return Err(e);
            },
        };
        lex.skip_ws();
        let op = match lex.peek() {
            None => {
                return Ok(first);
            },
            Some(c) => c,
        };
        if !(op == '&' || op == '|' || op == '^') {
            return Err(FilterParseError::Syntax);
        }
        let mut items: Vec<Filter> = Vec::new();
        items.push(first);
        while lex.pos < lex.chars.len()
            invariant
                lex.wf(),
                lex.chars@ == s@,
                items@.len() >= 1,
                items@.len() >= 2 || lex.pos < lex.chars@.len(),
                spec_unary_of(s@, 0, items@[0]),
                forall|i: int| 0 <= i < items@.len() ==> spec_is_unary(#[trigger] items@[i]),
            decreases lex.chars@.len() - lex.pos,
        {
            let c = lex.chars[lex.pos];
            if c != op {
                return Err(FilterParseError::Syntax);
            }
            lex.bump();
            let next = match parse_unary(&mut lex) {
                Ok(f) => f,
                Err(e) => {
                    return Err(e);
                },
            };
            items.push(next);
            lex.skip_ws();
        }
        if op == '&' {
            Ok(Filter::And(items))
        } else if op == '|' {
            Ok(Filter::Or(items))
        } else {
            Ok(Filter::Xor(items))
        }
    }
}

} // verus!
