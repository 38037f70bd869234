//! The state and the decisions of the repository client: the rate limit that
//! the server reports in its response headers, when a request has to wait,
//! and the address of a request. Sending requests is left to the caller.

use vstd::prelude::*;
use crate::projects::str_seq;

verus! {

/// Where every request goes.
pub const BASE_URL: &'static str = "https://api.modrinth.com/v2";

/// The rate limit assumed before the server has reported one.
pub const DEFAULT_RATELIMIT: i32 = 300;

/// The reset wait, in seconds, assumed before the server has reported one.
pub const DEFAULT_RESET: i32 = 60;

/// Response header with the number of requests allowed in a window.
pub const LIMIT_HEADER: &'static str = "x-ratelimit-limit";

/// Response header with the number of requests left in the window.
pub const REMAINING_HEADER: &'static str = "x-ratelimit-remaining";

/// Response header with the seconds until the window resets.
pub const RESET_HEADER: &'static str = "x-ratelimit-reset";

/// Path of the endpoint that returns several projects at once.
pub const PROJECTS_QUERY: &'static str = "/projects?ids=";

/// The client's view of the server's rate limit.
pub struct Modrinth {
    user_agent: String,
    ratelimit_limit: i32,
    ratelimit_remaining: i32,
    ratelimit_reset: i32,
}

/// The rate limit as numbers.
pub struct RateLimit {
    pub limit: int,
    pub remaining: int,
    pub reset: int,
}

impl View for Modrinth {
    type V = RateLimit;

    closed spec fn view(&self) -> RateLimit {
        RateLimit {
            limit: self.ratelimit_limit as int,
            remaining: self.ratelimit_remaining as int,
            reset: self.ratelimit_reset as int,
        }
    }
}

pub open spec fn is_digit(c: char) -> bool {
    '0' <= c && c <= '9'
}

pub open spec fn all_digits(s: Seq<char>) -> bool {
    s.len() > 0 && forall|i: int| 0 <= i < s.len() ==> is_digit(#[trigger] s[i])
}

/// The number that a string of decimal digits denotes.
pub open spec fn digits_value(s: Seq<char>) -> int
    decreases s.len(),
{
    if s.len() == 0 {
        0
    } else {
        digits_value(s.drop_last()) * 10 + ((s.last() as u32) as int - ('0' as u32) as int)
    }
}

/// The integer that `s` writes in decimal, with an optional sign.
pub open spec fn decimal_value(s: Seq<char>) -> Option<int> {
    if s.len() > 0 && s[0] == '-' && all_digits(s.skip(1)) {
        Some(-digits_value(s.skip(1)))
    } else if s.len() > 0 && s[0] == '+' && all_digits(s.skip(1)) {
        Some(digits_value(s.skip(1)))
    } else if all_digits(s) {
        Some(digits_value(s))
    } else {
        None
    }
}

/// The `i32` that `s` writes, if it writes one in range.
pub open spec fn i32_of_text(s: Seq<char>) -> Option<i32> {
    match decimal_value(s) {
        Some(v) => if i32::MIN <= v <= i32::MAX {
            Some(v as i32)
        } else {
            None
        },
        None => None,
    }
}

/// Relies on `str::parse::<i32>`: an optional `+` or `-` followed by decimal
/// digits, in range, gives that number; any other text is an error.
#[verifier::external_body]
fn parse_i32(s: &str) -> (r: Option<i32>)
    ensures
        r == i32_of_text(s@),
{
    s.parse::<i32>().ok()
}

/// Whether the field that header `name` sets may take the value `v`: the
/// count of remaining requests is never negative.
pub open spec fn accepts(name: Seq<char>, v: i32) -> bool {
    names_match(name, REMAINING_HEADER@) ==> v >= 0
}

/// The rate limit after one header, whose value read as `value`.
pub open spec fn header_step(s: RateLimit, name: Seq<char>, value: Option<i32>) -> RateLimit {
    match value {
        Some(v) => if names_match(name, LIMIT_HEADER@) {
            RateLimit { limit: v as int, ..s }
        } else if names_match(name, REMAINING_HEADER@) {
            if v >= 0 {
                RateLimit { remaining: v as int, ..s }
            } else {
                s
            }
        } else if names_match(name, RESET_HEADER@) {
            RateLimit { reset: v as int, ..s }
        } else {
            s
        },
        None => s,
    }
}

/// The rate limit after the headers `hs`, read in order.
pub open spec fn after_headers(s: RateLimit, hs: Seq<(Seq<char>, Seq<char>)>) -> RateLimit
    decreases hs.len(),
{
    if hs.len() == 0 {
        s
    } else {
        header_step(after_headers(s, hs.drop_last()), hs.last().0, i32_of_text(hs.last().1))
    }
}

pub open spec fn header_views(hs: Seq<(String, String)>) -> Seq<(Seq<char>, Seq<char>)> {
    hs.map_values(|h: (String, String)| (h.0@, h.1@))
}

/// The value of the last header in `hs` that is named `name`, but for ASCII
/// case, and whose value is an `i32` that the field accepts.
pub open spec fn last_value_of(hs: Seq<(Seq<char>, Seq<char>)>, name: Seq<char>) -> Option<int>
    decreases hs.len(),
{
    if hs.len() == 0 {
        None
    } else if names_match(hs.last().0, name) && i32_of_text(hs.last().1) is Some && accepts(
        name,
        i32_of_text(hs.last().1).unwrap(),
    ) {
        Some(i32_of_text(hs.last().1).unwrap() as int)
    } else {
        last_value_of(hs.drop_last(), name)
    }
}

/// The code of `c` with ASCII upper case folded to lower case.
pub open spec fn folded_code(c: char) -> u32 {
    if 'A' <= c && c <= 'Z' {
        (c as u32 + 32) as u32
    } else {
        c as u32
    }
}

/// Header names are equal when they are equal but for ASCII case.
pub open spec fn names_match(a: Seq<char>, b: Seq<char>) -> bool {
    a.len() == b.len() && forall|i: int| 0 <= i < a.len() ==> #[trigger] folded_code(a[i])
        == folded_code(b[i])
}

fn fold_char(c: char) -> (r: u32)
    ensures
        r == folded_code(c),
{
    if 'A' <= c && c <= 'Z' {
        c as u32 + 32
    } else {
        c as u32
    }
}

fn is_named(name: &String, expected: &str) -> (r: bool)
    ensures
        r == names_match(name@, expected@),
{
    let n = name.as_str();
    let len = n.unicode_len();
    if len != expected.unicode_len() {
        return false;
    }
    let mut i: usize = 0;
    while i < len
        invariant
            len == n@.len(),
            len == expected@.len(),
            n@ == name@,
            i <= len,
            forall|k: int| 0 <= k < i ==> #[trigger] folded_code(n@[k]) == folded_code(
                expected@[k],
            ),
        decreases len - i,
    {
        if fold_char(n.get_char(i)) != fold_char(expected.get_char(i)) {
            return false;
        }
        i = i + 1;
    }
    true
}

impl Modrinth {
    /// A client that identifies itself as `user_agent`, with the default
    /// rate limit.
    pub fn new(user_agent: String) -> (r: Modrinth)
        ensures
            r@ == (RateLimit {
                limit: DEFAULT_RATELIMIT as int,
                remaining: DEFAULT_RATELIMIT as int,
                reset: DEFAULT_RESET as int,
            }),
            r@.remaining >= 0,
            r.user_agent_view() == user_agent@,
    {
        Modrinth {
            user_agent,
            ratelimit_limit: DEFAULT_RATELIMIT,
            ratelimit_remaining: DEFAULT_RATELIMIT,
            ratelimit_reset: DEFAULT_RESET,
        }
    }

    pub closed spec fn user_agent_view(&self) -> Seq<char> {
        self.user_agent@
    }

    pub fn user_agent(&self) -> (r: &String)
        ensures
            r@ == self.user_agent_view(),
    {
        &self.user_agent
    }

    pub fn limit(&self) -> (r: i32)
        ensures
            r as int == self@.limit,
    {
        self.ratelimit_limit
    }

    pub fn remaining(&self) -> (r: i32)
        ensures
            r as int == self@.remaining,
    {
        self.ratelimit_remaining
    }

    pub fn reset(&self) -> (r: i32)
        ensures
            r as int == self@.reset,
    {
        self.ratelimit_reset
    }

    /// The seconds to wait before the next request: the reset time when no
    /// request is left in the window (zero if that time is negative), and
    /// no wait otherwise.
    pub fn wait_before_request(&self) -> (r: Option<u64>)
        ensures
            self@.remaining == 0 ==> (r matches Some(w) && w as int == (if self@.reset >= 0 {
                self@.reset
            } else {
                0
            })),
            self@.remaining != 0 ==> r is None,
    {
        if self.ratelimit_remaining == 0 {
            if self.ratelimit_reset >= 0 {
                Some(self.ratelimit_reset as u64)
            } else {
                Some(0)
            }
        } else {
            None
        }
    }

    /// Takes in one response header whose value read as `value`. Names are
    /// compared without regard to ASCII case; headers of other names, values
    /// that are no `i32`, and a negative count of remaining requests change
    /// nothing.
    pub fn record_header(&mut self, name: &String, value: Option<i32>)
        requires
            old(self)@.remaining >= 0,
        ensures
            final(self)@.remaining >= 0,
            final(self)@ == header_step(old(self)@, name@, value),
            final(self).user_agent_view() == old(self).user_agent_view(),
    {
        if let Some(v) = value {
            if is_named(name, LIMIT_HEADER) {
                self.ratelimit_limit = v;
            } else if is_named(name, REMAINING_HEADER) {
                if v >= 0 {
                    self.ratelimit_remaining = v;
                }
            } else if is_named(name, RESET_HEADER) {
                self.ratelimit_reset = v;
            }
        }
    }

    /// Takes in the headers of a response, in order. Each field of the rate
    /// limit ends with the last value that a header of its name gave as an
    /// `i32` the field accepts, and keeps its value where no header did.
    pub fn update_from_headers(&mut self, headers: &Vec<(String, String)>)
        requires
            old(self)@.remaining >= 0,
        ensures
            final(self)@.remaining >= 0,
            final(self)@ == after_headers(old(self)@, header_views(headers@)),
            final(self).user_agent_view() == old(self).user_agent_view(),
    {
        let ghost start = self@;
        let ghost ua = self.user_agent_view();
        let ghost hs = header_views(headers@);
        let mut i: usize = 0;
        while i < headers.len()
            invariant
                i <= headers@.len(),
                hs == header_views(headers@),
                self@ == after_headers(start, hs.take(i as int)),
                self@.remaining >= 0,
                self.user_agent_view() == ua,
            decreases headers@.len() - i,
        {
            let value = parse_i32(headers[i].1.as_str());
            self.record_header(&headers[i].0, value);
            assert(hs.take(i as int + 1).drop_last() =~= hs.take(i as int));
            i = i + 1;
        }
        assert(hs.take(hs.len() as int) =~= hs);
    }
}

proof fn lemma_rate_limit_names_distinct(n: Seq<char>)
    ensures
        !(names_match(n, LIMIT_HEADER@) && names_match(n, REMAINING_HEADER@)),
        !(names_match(n, LIMIT_HEADER@) && names_match(n, RESET_HEADER@)),
        !(names_match(n, REMAINING_HEADER@) && names_match(n, RESET_HEADER@)),
{
    reveal_strlit("x-ratelimit-limit");
    reveal_strlit("x-ratelimit-remaining");
    reveal_strlit("x-ratelimit-reset");
    if names_match(n, LIMIT_HEADER@) && names_match(n, RESET_HEADER@) {
        assert(folded_code(n[12]) == folded_code(LIMIT_HEADER@[12]));
        assert(folded_code(n[12]) == folded_code(RESET_HEADER@[12]));
        assert(false);
    }
}

/// Reading headers in order, each field of the rate limit ends with the
/// last value that a header of its name gave, and keeps its earlier value
/// where none did.
pub proof fn lemma_latest_header_wins(s: RateLimit, hs: Seq<(Seq<char>, Seq<char>)>)
    ensures
        after_headers(s, hs).limit == (match last_value_of(hs, LIMIT_HEADER@) {
            Some(v) => v,
            None => s.limit,
        }),
        after_headers(s, hs).remaining == (match last_value_of(hs, REMAINING_HEADER@) {
            Some(v) => v,
            None => s.remaining,
        }),
        after_headers(s, hs).reset == (match last_value_of(hs, RESET_HEADER@) {
            Some(v) => v,
            None => s.reset,
        }),
    decreases hs.len(),
{
    lemma_rate_limit_names_distinct(LIMIT_HEADER@);
    lemma_rate_limit_names_distinct(RESET_HEADER@);
    if hs.len() > 0 {
        lemma_rate_limit_names_distinct(hs.last().0);
        lemma_latest_header_wins(s, hs.drop_last());
    }
}

/// A name for the JSON text of an array of strings.
pub uninterp spec fn json_string_array(items: Seq<Seq<char>>) -> Seq<char>;

/// Relies on `serde_json::to_string` on a list of strings: the JSON array of
/// those strings, which depends on the strings alone. Writing strings into
/// the in-memory buffer it uses never fails.
#[verifier::external_body]
fn encode_ids(ids: &Vec<String>) -> (r: Option<String>)
    ensures
        r is Some,
        r matches Some(t) ==> t@ == json_string_array(str_seq(ids@)),
{
    serde_json::to_string(ids).ok()
}

/// The full address of the request for `path`.
pub fn request_url(path: &str) -> (r: String)
    ensures
        r@ == BASE_URL@ + path@,
{
    let mut u = String::from_str(BASE_URL);
    u.append(path);
    u
}

/// The path of the request for the projects whose identifiers
/// `encoded_ids` lists as a JSON array.
pub fn projects_path(encoded_ids: &str) -> (r: String)
    ensures
        r@ == PROJECTS_QUERY@ + encoded_ids@,
{
    let mut p = String::from_str(PROJECTS_QUERY);
    p.append(encoded_ids);
    p
}

/// The path of the request for the projects `ids`: the endpoint followed
/// by the JSON array of the identifiers, in order.
pub fn projects_request_path(ids: &Vec<String>) -> (r: String)
    ensures
        r@ == PROJECTS_QUERY@ + json_string_array(str_seq(ids@)),
{
    match encode_ids(ids) {
        Some(encoded) => projects_path(encoded.as_str()),
        None => String::new(),
    }
}

} // verus!
