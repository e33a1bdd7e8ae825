//! Request model enums and the CORS safelist checks on header values.

use vstd::prelude::*;
use vstd::string::StrSliceExecFns;
use crate::chars::is_white_space_char;
use crate::strutil::str_chars;

verus! {

#[derive(Clone, Copy, Debug, Eq, PartialEq, Structural)]
pub enum Initiator {
    NoInitiator,
    Download,
    ImageSet,
    Manifest,
    XSLT,
    Prefetch,
    Link,
}

#[derive(Clone, Debug, PartialEq)]
pub enum RequestMode {
    Navigate,
    SameOrigin,
    NoCors,
    CorsMode,
    WebSocket { protocols: Vec<String> },
}

#[derive(Clone, Copy, Debug, Eq, PartialEq, Structural)]
pub enum CredentialsMode {
    Omit,
    CredentialsSameOrigin,
    Include,
}

#[derive(Clone, Copy, Debug, Eq, PartialEq, Structural)]
pub enum CacheMode {
    Default,
    NoStore,
    Reload,
    NoCache,
    ForceCache,
    OnlyIfCached,
}

#[derive(Clone, Copy, Debug, Eq, PartialEq, Structural)]
pub enum ServiceWorkersMode {
    All,
    NoWorkers,
}

#[derive(Clone, Copy, Debug, Eq, PartialEq, Structural)]
pub enum RedirectMode {
    Follow,
    Error,
    Manual,
}

#[derive(Clone, Copy, Debug, Eq, PartialEq, Structural)]
pub enum ResponseTainting {
    Basic,
    CorsTainting,
    Opaque,
}

#[derive(Clone, Copy, Debug, Eq, PartialEq, Structural)]
pub enum CorsSettings {
    Anonymous,
    UseCredentials,
}

#[derive(Clone, Copy, Debug, Eq, PartialEq, Structural)]
pub enum ParserMetadata {
    Default,
    ParserInserted,
    NotParserInserted,
}

#[derive(Clone, Copy, Debug, Eq, PartialEq, Structural)]
pub enum BodySource {
    Null,
    Object,
}

#[derive(Clone, Copy, Debug, Eq, PartialEq, Structural)]
pub enum InsecureRequestsPolicy {
    DoNotUpgrade,
    Upgrade,
}

/// A byte that makes a header value CORS-unsafe.
pub open spec fn cors_unsafe_byte(value: u8) -> bool {
    ||| value <= 0x08
    ||| (0x10 <= value && value <= 0x19)
    ||| value == 0x22
    ||| value == 0x28
    ||| value == 0x29
    ||| value == 0x3A
    ||| value == 0x3C
    ||| value == 0x3E
    ||| value == 0x3F
    ||| value == 0x40
    ||| value == 0x5B
    ||| value == 0x5C
    ||| value == 0x5D
    ||| value == 0x7B
    ||| value == 0x7D
    ||| value == 0x7F
}

pub fn is_cors_unsafe_request_header_byte(value: &u8) -> (r: bool)
    ensures
        r == cors_unsafe_byte(*value),
{
    let v = *value;
    v <= 0x08 || (0x10 <= v && v <= 0x19) || v == 0x22 || v == 0x28 || v == 0x29 || v == 0x3A
        || v == 0x3C || v == 0x3E || v == 0x3F || v == 0x40 || v == 0x5B || v == 0x5C || v == 0x5D
        || v == 0x7B || v == 0x7D || v == 0x7F
}

/// A safelisted `accept` value: no CORS-unsafe byte.
pub open spec fn accept_ok(value: Seq<u8>) -> bool {
    forall|i: int| 0 <= i < value.len() ==> !cors_unsafe_byte(#[trigger] value[i])
}

pub fn is_cors_safelisted_request_accept(value: &[u8]) -> (r: bool)
    ensures
        r == accept_ok(value@),
{
    let n = value.len();
    let mut i: usize = 0;
    while i < n
        invariant
            n == value@.len(),
            i <= n,
            forall|k: int| 0 <= k < i ==> !cors_unsafe_byte(#[trigger] value@[k]),
        decreases n - i,
    {
        if is_cors_unsafe_request_header_byte(&value[i]) {
            return false;
        }
        i = i + 1;
    }
    true
}

/// A byte allowed in `accept-language` and `content-language` values.
pub open spec fn language_byte(b: u8) -> bool {
    ||| (0x30 <= b && b <= 0x39)
    ||| (0x41 <= b && b <= 0x5A)
    ||| (0x61 <= b && b <= 0x7A)
    ||| b == 0x20
    ||| b == 0x2A
    ||| b == 0x2C
    ||| b == 0x2D
    ||| b == 0x2E
    ||| b == 0x3B
    ||| b == 0x3D
}

pub open spec fn language_ok(value: Seq<u8>) -> bool {
    forall|i: int| 0 <= i < value.len() ==> language_byte(#[trigger] value[i])
}

pub fn is_cors_safelisted_language(value: &[u8]) -> (r: bool)
    ensures
        r == language_ok(value@),
{
    let n = value.len();
    let mut i: usize = 0;
    while i < n
        invariant
            n == value@.len(),
            i <= n,
            forall|k: int| 0 <= k < i ==> language_byte(#[trigger] value@[k]),
        decreases n - i,
    {
        let b = value[i];
        let ok = (0x30 <= b && b <= 0x39) || (0x41 <= b && b <= 0x5A) || (0x61 <= b && b <= 0x7A)
            || b == 0x20 || b == 0x2A || b == 0x2C || b == 0x2D || b == 0x2E || b == 0x3B || b
            == 0x3D;
        if !ok {
            return false;
        }
        i = i + 1;
    }
    true
}

/// The type and subtype the MIME parser yields for `s`, in the parser's
/// canonical (lowercased) form; `None` when `s` does not parse.
pub uninterp spec fn mime_essence(s: Seq<char>) -> Option<(Seq<char>, Seq<char>)>;

/// Relies on mime::Mime's FromStr (via str::parse) and Mime::type_ /
/// Mime::subtype: the parsed type and subtype names, a function of the
/// string alone; `None` exactly when the string does not parse.
#[verifier::external_body]
fn mime_parse_essence(s: &str) -> (r: Option<(String, String)>)
    ensures
        (match r {
            Some(p) => mime_essence(s@) == Some((p.0@, p.1@)),
            None => mime_essence(s@) is None,
        }),
{
    let parsed: Result<mime::Mime, _> = s.parse();
    match parsed {
        Err(_) => None,
        Ok(m) => Some((m.type_().as_str().to_string(), m.subtype().as_str().to_string())),
    }
}

/// The three CORS-safelisted content types: the string parses as a MIME
/// type with essence application/x-www-form-urlencoded,
/// multipart/form-data or text/plain.
pub open spec fn safelisted_mime(s: Seq<char>) -> bool {
    match mime_essence(s) {
        Some(e) => {
            ||| (e.0 == "application"@ && e.1 == "x-www-form-urlencoded"@)
            ||| (e.0 == "multipart"@ && e.1 == "form-data"@)
            ||| (e.0 == "text"@ && e.1 == "plain"@)
        },
        None => false,
    }
}

/// Decides `safelisted_mime`: the fetch safelist's three-way choice of
/// essences, on the essence the parser handed out.
fn mime_is_safelisted(s: &str) -> (r: bool)
    ensures
        r == safelisted_mime(s@),
{
    match mime_parse_essence(s) {
        None => false,
        Some(p) => {
            let is_form = str_eq(p.0.as_str(), "application") && str_eq(
                p.1.as_str(),
                "x-www-form-urlencoded",
            );
            let is_multipart = str_eq(p.0.as_str(), "multipart") && str_eq(
                p.1.as_str(),
                "form-data",
            );
            let is_plain = str_eq(p.0.as_str(), "text") && str_eq(p.1.as_str(), "plain");
            is_form || is_multipart || is_plain
        },
    }
}

/// Relies on str::from_utf8: succeeds exactly on valid UTF-8 and decodes
/// it.
#[verifier::external_body]
fn bytes_as_str(v: &[u8]) -> (r: Option<&str>)
    ensures
        (match r {
            Some(s) => vstd::utf8::valid_utf8(v@) && s@ == vstd::utf8::decode_utf8(v@),
            None => !vstd::utf8::valid_utf8(v@),
        }),
{
    core::str::from_utf8(v).ok()
}

/// A safelisted `content-type` value: no unsafe byte, valid UTF-8, and
/// one of the three safelisted MIME essences.
pub open spec fn content_type_ok(value: Seq<u8>) -> bool {
    &&& accept_ok(value)
    &&& vstd::utf8::valid_utf8(value)
    &&& safelisted_mime(vstd::utf8::decode_utf8(value))
}

pub fn is_cors_safelisted_request_content_type(value: &[u8]) -> (r: bool)
    ensures
        r == content_type_ok(value@),
{
    if !is_cors_safelisted_request_accept(value) {
        return false;
    }
    match bytes_as_str(value) {
        Some(s) => mime_is_safelisted(s),
        None => false,
    }
}

/// Decimal digits with an optional leading plus sign, as `u64` parsing
/// accepts them.
pub open spec fn unsigned_digits(s: Seq<char>) -> Seq<char> {
    if s.len() > 0 && s[0] == '+' {
        s.drop_first()
    } else {
        s
    }
}

pub open spec fn all_decimal_digits(s: Seq<char>) -> bool {
    forall|i: int| 0 <= i < s.len() ==> '0' <= #[trigger] s[i] <= '9'
}

pub open spec fn decimal_value(s: Seq<char>) -> int
    decreases s.len(),
{
    if s.len() == 0 {
        0
    } else {
        decimal_value(s.drop_last()) * 10 + (s.last() as u32 - '0' as u32)
    }
}

/// Exactly when `u64` parsing succeeds: an optional plus sign, at least
/// one digit, nothing else, and a value that fits.
pub open spec fn parse_u64_ok(s: Seq<char>) -> bool {
    let d = unsigned_digits(s);
    d.len() > 0 && all_decimal_digits(d) && decimal_value(d) <= u64::MAX
}

pub open spec fn parse_u64_value(s: Seq<char>) -> int {
    decimal_value(unsigned_digits(s))
}

proof fn lemma_decimal_value_nonneg(s: Seq<char>)
    requires
        all_decimal_digits(s),
    ensures
        decimal_value(s) >= 0,
    decreases s.len(),
{
    if s.len() > 0 {
        assert(forall|i: int| 0 <= i < s.drop_last().len() ==> '0' <= #[trigger] s.drop_last()[i]
            <= '9');
        lemma_decimal_value_nonneg(s.drop_last());
        assert(decimal_value(s.drop_last()) * 10 >= 0) by (nonlinear_arith)
            requires
                decimal_value(s.drop_last()) >= 0,
        ;
    }
}

proof fn lemma_decimal_value_grows(s: Seq<char>, j: int)
    requires
        all_decimal_digits(s),
        0 <= j <= s.len(),
    ensures
        decimal_value(s.take(j)) <= decimal_value(s),
    decreases s.len() - j,
{
    if j < s.len() {
        let t = s.take(j + 1);
        assert(t.drop_last() =~= s.take(j));
        assert(forall|i: int| 0 <= i < t.len() ==> '0' <= #[trigger] t[i] <= '9');
        assert(forall|i: int|
            0 <= i < s.take(j).len() ==> '0' <= #[trigger] s.take(j)[i] <= '9');
        lemma_decimal_value_nonneg(s.take(j));
        assert(decimal_value(s.take(j)) * 10 >= decimal_value(s.take(j))) by (nonlinear_arith)
            requires
                decimal_value(s.take(j)) >= 0,
        ;
        assert(decimal_value(t) >= decimal_value(s.take(j)));
        lemma_decimal_value_grows(s, j + 1);
        assert(s.take(s.len() as int) =~= s);
    } else {
        assert(s.take(j) =~= s);
    }
}

/// Parses a `u64` as std does: an optional plus sign, decimal digits,
/// `None` on anything else, on emptiness and on overflow.
pub fn parse_u64_chars(chars: &Vec<char>) -> (r: Option<u64>)
    ensures
        (match r {
            Some(v) => parse_u64_ok(chars@) && v == parse_u64_value(chars@),
            None => !parse_u64_ok(chars@),
        }),
{
    let n = chars.len();
    let start: usize = if n > 0 && chars[0] == '+' {
        1
    } else {
        0
    };
    let ghost d = unsigned_digits(chars@);
    proof {
        assert(d =~= chars@.skip(start as int));
    }
    if n == start {
        return None;
    }
    let mut val: u64 = 0;
    let mut i: usize = start;
    while i < n
        invariant
            n == chars@.len(),
            start <= i <= n,
            d == chars@.skip(start as int),
            d == unsigned_digits(chars@),
            start <= 1,
            all_decimal_digits(d.take(i - start)),
            val == decimal_value(d.take(i - start)),
        decreases n - i,
    {
        let c = chars[i];
        if !('0' <= c && c <= '9') {
            proof {
                assert(0 <= i - start < d.len());
                assert(d[i - start] == c);
                assert(!('0' <= d[i - start] <= '9'));
                assert(!all_decimal_digits(d));
                assert(!parse_u64_ok(chars@));
            }
            return None;
        }
        let digit = (c as u32 - '0' as u32) as u64;
        proof {
            assert(d.take(i - start + 1).drop_last() =~= d.take(i - start));
            assert(d.take(i - start + 1).last() == c);
            assert(decimal_value(d.take(i - start + 1)) == decimal_value(d.take(i - start)) * 10
                + digit);
        }
        let next = match val.checked_mul(10) {
            Some(m) => m.checked_add(digit),
            None => None,
        };
        let val_next = match next {
            Some(v) => v,
            None => {
                proof {
                    assert(decimal_value(d.take(i - start + 1)) > u64::MAX) by (nonlinear_arith)
                        requires
                            decimal_value(d.take(i - start + 1)) == decimal_value(
                                d.take(i - start),
                            ) * 10 + digit,
                            val == decimal_value(d.take(i - start)),
                            0 <= digit,
                            (val * 10 > u64::MAX) || (val * 10 + digit > u64::MAX),
                    ;
                    if all_decimal_digits(d) {
                        lemma_decimal_value_grows(d, i - start + 1);
                        assert(decimal_value(d) > u64::MAX);
                    }
                    assert(!parse_u64_ok(chars@));
                }
                return None;
            },
        };
        val = val_next;

        i = i + 1;
    }
    proof {
        assert(d.take(n - start) =~= d);
    }
    Some(val)
}

/// The least index holding a dash, if any.
pub open spec fn first_dash(s: Seq<char>) -> Option<int>
    decreases s.len(),
{
    if s.len() == 0 {
        None
    } else if s[0] == '-' {
        Some(0int)
    } else {
        match first_dash(s.drop_first()) {
            Some(i) => Some(i + 1),
            None => None,
        }
    }
}

pub proof fn lemma_first_dash_at(s: Seq<char>, j: int)
    requires
        0 <= j < s.len(),
        s[j] == '-',
        forall|k: int| 0 <= k < j ==> s[k] != '-',
    ensures
        first_dash(s) == Some(j),
    decreases j,
{
    if j > 0 {
        assert(forall|k: int| 0 <= k < j - 1 ==> s.drop_first()[k] != '-');
        lemma_first_dash_at(s.drop_first(), j - 1);
    }
}

pub proof fn lemma_first_dash_none(s: Seq<char>)
    requires
        forall|k: int| 0 <= k < s.len() ==> s[k] != '-',
    ensures
        first_dash(s) is None,
    decreases s.len(),
{
    if s.len() > 0 {
        assert(forall|k: int| 0 <= k < s.drop_first().len() ==> s.drop_first()[k] != '-');
        lemma_first_dash_none(s.drop_first());
    }
}

/// Leading whitespace removed.
pub open spec fn trim_start_spec(s: Seq<char>) -> Seq<char>
    decreases s.len(),
{
    if s.len() > 0 && is_white_space_char(s[0]) {
        trim_start_spec(s.drop_first())
    } else {
        s
    }
}

/// Trailing whitespace removed.
pub open spec fn trim_end_spec(s: Seq<char>) -> Seq<char>
    decreases s.len(),
{
    if s.len() > 0 && is_white_space_char(s.last()) {
        trim_end_spec(s.drop_last())
    } else {
        s
    }
}

pub open spec fn trim_spec(s: Seq<char>) -> Seq<char> {
    trim_end_spec(trim_start_spec(s))
}

proof fn lemma_trim_start_at(s: Seq<char>, i: int)
    requires
        0 <= i <= s.len(),
        forall|k: int| 0 <= k < i ==> is_white_space_char(#[trigger] s[k]),
        i == s.len() || !is_white_space_char(s[i]),
    ensures
        trim_start_spec(s) == s.skip(i),
    decreases i,
{
    if i == 0 {
        assert(s.skip(0) =~= s);
    } else {
        assert(forall|k: int|
            0 <= k < i - 1 ==> is_white_space_char(#[trigger] s.drop_first()[k]));
        lemma_trim_start_at(s.drop_first(), i - 1);
        assert(s.drop_first().skip(i - 1) =~= s.skip(i));
    }
}

proof fn lemma_trim_end_at(s: Seq<char>, i: int)
    requires
        0 <= i <= s.len(),
        forall|k: int| i <= k < s.len() ==> is_white_space_char(#[trigger] s[k]),
        i == 0 || !is_white_space_char(s[i - 1]),
    ensures
        trim_end_spec(s) == s.take(i),
    decreases s.len() - i,
{
    if i == s.len() {
        assert(s.take(i) =~= s);
    } else {
        assert(forall|k: int|
            i <= k < s.drop_last().len() ==> is_white_space_char(#[trigger] s.drop_last()[k]));
        lemma_trim_end_at(s.drop_last(), i);
        assert(s.drop_last().take(i) =~= s.take(i));
    }
}

/// A well-formed `Range` header: optional surrounding whitespace, a
/// `bytes=` prefix, a decimal start, and optionally a dash and a decimal
/// end no smaller than the start.
pub open spec fn range_header_ok(s: Seq<char>) -> bool {
    let t = trim_spec(s);
    &&& t.len() >= 6
    &&& t.take(6) == seq!['b', 'y', 't', 'e', 's', '=']
    &&& ({
        let r = t.skip(6);
        match first_dash(r) {
            None => parse_u64_ok(r),
            Some(d) => {
                let start = r.take(d);
                let rest = r.skip(d + 1);
                let end = match first_dash(rest) {
                    None => rest,
                    Some(d2) => rest.take(d2),
                };
                &&& parse_u64_ok(start)
                &&& (end.len() == 0 || (parse_u64_ok(end) && parse_u64_value(start)
                    <= parse_u64_value(end)))
            },
        }
    })
}

/// Validates a `Range` header value as the fetch safelist requires.
#[verifier::rlimit(60)]
pub fn validate_range_header(value: &str) -> (r: bool)
    ensures
        r == range_header_ok(value@),
{
    let chars = str_chars(value);
    let n = chars.len();
    // trim surrounding whitespace
    let mut lo: usize = 0;
    while lo < n && crate::chars::char_is_white_space(chars[lo])
        invariant
            n == chars.len(),
            chars@ == value@,
            lo <= n,
            forall|k: int| 0 <= k < lo ==> is_white_space_char(#[trigger] value@[k]),
        decreases n - lo,
    {
        lo = lo + 1;
    }
    let mut hi: usize = n;
    while hi > lo && crate::chars::char_is_white_space(chars[hi - 1])
        invariant
            n == chars.len(),
            chars@ == value@,
            lo <= hi <= n,
            forall|k: int| 0 <= k < lo ==> is_white_space_char(#[trigger] value@[k]),
            forall|k: int| hi <= k < n ==> is_white_space_char(#[trigger] value@[k]),
        decreases hi,
    {
        hi = hi - 1;
    }
    let ghost t = trim_spec(value@);
    proof {
        if lo == n {
            lemma_trim_start_at(value@, n as int);
            lemma_trim_end_at(value@.skip(n as int), 0);
            assert(value@.skip(n as int) =~= Seq::<char>::empty());
            assert(t =~= value@.skip(n as int).take(0));
        } else {
            lemma_trim_start_at(value@, lo as int);
            assert(forall|k: int|
                hi - lo <= k < value@.skip(lo as int).len() ==> is_white_space_char(
                    #[trigger] value@.skip(lo as int)[k],
                ));
            assert(hi > lo);
            assert(!is_white_space_char(value@.skip(lo as int)[hi - lo - 1]));
            lemma_trim_end_at(value@.skip(lo as int), hi - lo);
            assert(t == value@.skip(lo as int).take(hi - lo));
        }
        assert(t.len() == hi - lo);
    }
    // the `bytes=` prefix
    if hi - lo < 6 {
        return false;
    }
    let prefix_ok = chars[lo] == 'b' && chars[lo + 1] == 'y' && chars[lo + 2] == 't' && chars[lo
        + 3] == 'e' && chars[lo + 4] == 's' && chars[lo + 5] == '=';
    proof {
        assert(forall|k: int| 0 <= k < t.len() ==> t[k] == value@[lo + k]);
    }
    if !prefix_ok {
        proof {
            assert(t.take(6) != seq!['b', 'y', 't', 'e', 's', '=']) by {
                if t.take(6) == seq!['b', 'y', 't', 'e', 's', '='] {
                    assert(t.take(6)[0] == 'b' && t.take(6)[1] == 'y' && t.take(6)[2] == 't'
                        && t.take(6)[3] == 'e' && t.take(6)[4] == 's' && t.take(6)[5] == '=');
                }
            }
        }
        return false;
    }
    proof {
        assert(t.take(6) =~= seq!['b', 'y', 't', 'e', 's', '=']);
    }
    let ghost r_g = t.skip(6);
    let base = lo + 6;
    proof {
        assert(forall|k: int| 0 <= k < r_g.len() ==> r_g[k] == value@[base + k]);
        assert(r_g.len() == hi - base);
    }
    // find the first dash
    let mut d: usize = base;
    while d < hi && chars[d] != '-'
        invariant
            n == chars.len(),
            chars@ == value@,
            base <= d <= hi <= n,
            forall|k: int| base <= k < d ==> value@[k] != '-',
            forall|k: int| 0 <= k < r_g.len() ==> r_g[k] == value@[base + k],
            r_g.len() == hi - base,
        decreases hi - d,
    {
        d = d + 1;
    }
    if d == hi {
        // no dash: the whole rest must be a number
        proof {
            assert(forall|k: int| 0 <= k < r_g.len() ==> r_g[k] != '-');
            lemma_first_dash_none(r_g);
        }
        let mut start_chars: Vec<char> = Vec::new();
        let mut i: usize = base;
        while i < hi
            invariant
                n == chars.len(),
                chars@ == value@,
                base <= i <= hi <= n,
                start_chars@ == r_g.take(i - base),
                forall|k: int| 0 <= k < r_g.len() ==> r_g[k] == value@[base + k],
                r_g.len() == hi - base,
            decreases hi - i,
        {
            start_chars.push(chars[i]);
            proof {
                assert(r_g.take(i + 1 - base) =~= r_g.take(i - base).push(r_g[i - base]));
            }
            i = i + 1;
        }
        proof {
            assert(r_g.take(hi - base) =~= r_g);
        }
        return match parse_u64_chars(&start_chars) {
            Some(_) => true,
            None => false,
        };
    }
    // dash at d
    proof {
        assert(r_g[d - base] == '-');
        lemma_first_dash_at(r_g, d - base);
    }
    let mut start_chars: Vec<char> = Vec::new();
    let mut i: usize = base;
    while i < d
        invariant
            n == chars.len(),
            chars@ == value@,
            base <= i <= d <= hi <= n,
            start_chars@ == r_g.take(i - base),
            forall|k: int| 0 <= k < r_g.len() ==> r_g[k] == value@[base + k],
            r_g.len() == hi - base,
        decreases d - i,
    {
        start_chars.push(chars[i]);
        proof {
            assert(r_g.take(i + 1 - base) =~= r_g.take(i - base).push(r_g[i - base]));
        }
        i = i + 1;
    }
    let start_num = match parse_u64_chars(&start_chars) {
        Some(v) => v,
        None => {
            return false;
        },
    };
    // the end part: up to the next dash, or to the end
    let ghost rest_g = r_g.skip(d - base + 1);
    proof {
        assert(forall|k: int| 0 <= k < rest_g.len() ==> rest_g[k] == value@[d + 1 + k]);
        assert(rest_g.len() == hi - d - 1);
    }
    let mut e: usize = d + 1;
    while e < hi && chars[e] != '-'
        invariant
            n == chars.len(),
            chars@ == value@,
            d + 1 <= e <= hi <= n,
            forall|k: int| d + 1 <= k < e ==> value@[k] != '-',
            forall|k: int| 0 <= k < rest_g.len() ==> rest_g[k] == value@[d + 1 + k],
            rest_g.len() == hi - d - 1,
        decreases hi - e,
    {
        e = e + 1;
    }
    let ghost end_g = if e == hi {
        rest_g
    } else {
        rest_g.take(e - d - 1)
    };
    proof {
        if e == hi {
            assert(forall|k: int| 0 <= k < rest_g.len() ==> rest_g[k] != '-');
            lemma_first_dash_none(rest_g);
        } else {
            assert(rest_g[e - d - 1] == '-');
            lemma_first_dash_at(rest_g, e - d - 1);
        }
    }
    if e == d + 1 {
        // empty end: any start is fine
        proof {
            assert(end_g.len() == 0);
        }
        return true;
    }
    let mut end_chars: Vec<char> = Vec::new();
    let mut i2: usize = d + 1;
    while i2 < e
        invariant
            n == chars.len(),
            chars@ == value@,
            d + 1 <= i2 <= e <= hi <= n,
            end_chars@ == rest_g.take(i2 - d - 1),
            forall|k: int| 0 <= k < rest_g.len() ==> rest_g[k] == value@[d + 1 + k],
            rest_g.len() == hi - d - 1,
        decreases e - i2,
    {
        end_chars.push(chars[i2]);
        proof {
            assert(rest_g.take(i2 + 1 - (d + 1)) =~= rest_g.take(i2 - (d + 1)).push(
                rest_g[i2 - (d + 1)],
            ));
        }
        i2 = i2 + 1;
    }
    proof {
        if e == hi {
            assert(rest_g.take(e - d - 1) =~= rest_g);
        }
        assert(end_chars@ == end_g);
    }
    match parse_u64_chars(&end_chars) {
        Some(end_num) => start_num <= end_num,
        None => false,
    }
}

/// A safelisted `range` value: valid UTF-8 holding a well-formed byte
/// range.
pub open spec fn range_ok(value: Seq<u8>) -> bool {
    &&& vstd::utf8::valid_utf8(value)
    &&& range_header_ok(vstd::utf8::decode_utf8(value))
}

pub fn is_cors_safelisted_request_range(value: &[u8]) -> (r: bool)
    ensures
        r == range_ok(value@),
{
    match bytes_as_str(value) {
        Some(s) => validate_range_header(s),
        None => false,
    }
}

/// String equality, decided character by character.
pub fn str_eq(a: &str, b: &str) -> (r: bool)
    ensures
        r == (a@ == b@),
{
    let na = a.unicode_len();
    let nb = b.unicode_len();
    if na != nb {
        return false;
    }
    let mut i: usize = 0;
    while i < na
        invariant
            na == a@.len(),
            na == b@.len(),
            i <= na,
            forall|k: int| 0 <= k < i ==> a@[k] == b@[k],
        decreases na - i,
    {
        if a.get_char(i) != b.get_char(i) {
            return false;
        }
        i = i + 1;
    }
    proof {
        assert(a@ =~= b@);
    }
    true
}

/// A CORS-safelisted request header: the value is at most 128 bytes and
/// passes the check its (lowercase) name selects; all other names are
/// unsafe.
pub open spec fn safelisted_header_ok(name: Seq<char>, value: Seq<u8>) -> bool {
    &&& value.len() <= 128
    &&& (if name == seq!['a', 'c', 'c', 'e', 'p', 't'] {
        accept_ok(value)
    } else if name == seq![
        'a',
        'c',
        'c',
        'e',
        'p',
        't',
        '-',
        'l',
        'a',
        'n',
        'g',
        'u',
        'a',
        'g',
        'e',
    ] || name == seq![
        'c',
        'o',
        'n',
        't',
        'e',
        'n',
        't',
        '-',
        'l',
        'a',
        'n',
        'g',
        'u',
        'a',
        'g',
        'e',
    ] {
        language_ok(value)
    } else if name == seq!['c', 'o', 'n', 't', 'e', 'n', 't', '-', 't', 'y', 'p', 'e'] {
        content_type_ok(value)
    } else if name == seq!['r', 'a', 'n', 'g', 'e'] {
        range_ok(value)
    } else {
        false
    })
}

pub fn is_cors_safelisted_request_header(name: &str, value: &[u8]) -> (r: bool)
    ensures
        r == safelisted_header_ok(name@, value@),
{
    proof {
        reveal_strlit("accept");
        reveal_strlit("accept-language");
        reveal_strlit("content-language");
        reveal_strlit("content-type");
        reveal_strlit("range");
        assert("accept"@ =~= seq!['a', 'c', 'c', 'e', 'p', 't']);
        assert("accept-language"@ =~= seq![
            'a',
            'c',
            'c',
            'e',
            'p',
            't',
            '-',
            'l',
            'a',
            'n',
            'g',
            'u',
            'a',
            'g',
            'e',
        ]);
        assert("content-language"@ =~= seq![
            'c',
            'o',
            'n',
            't',
            'e',
            'n',
            't',
            '-',
            'l',
            'a',
            'n',
            'g',
            'u',
            'a',
            'g',
            'e',
        ]);
        assert("content-type"@ =~= seq!['c', 'o', 'n', 't', 'e', 'n', 't', '-', 't', 'y', 'p', 'e']);
        assert("range"@ =~= seq!['r', 'a', 'n', 'g', 'e']);
    }
    if value.len() > 128 {
        return false;
    }
    if str_eq(name, "accept") {
        is_cors_safelisted_request_accept(value)
    } else if str_eq(name, "accept-language") || str_eq(name, "content-language") {
        is_cors_safelisted_language(value)
    } else if str_eq(name, "content-type") {
        is_cors_safelisted_request_content_type(value)
    } else if str_eq(name, "range") {
        is_cors_safelisted_request_range(value)
    } else {
        false
    }
}

} // verus!
