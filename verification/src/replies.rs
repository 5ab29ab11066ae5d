//! Reading the firms' replies.
//!
//! Local models do not always answer in strict JSON, so a reply is read in
//! two stages: first as the JSON object that it contains, then, failing
//! that, from its plain text.  A message reply falls back to the reply's
//! words; a price reply falls back to the first number in the text.

use vstd::prelude::*;

use crate::text::{
    chars_eq, chars_of, collapse_space_chars, collapse_spaces, is_digit, is_space,
    lemma_collapse_empty_iff_blank, slice_chars, string_of, trim, trim_chars,
};

verus! {

// ---------------------------------------------------------------------------
// Locating the JSON object and the first number
// ---------------------------------------------------------------------------

/// The first position at or after `i` that holds `c`.
pub open spec fn first_at_or_after(s: Seq<char>, c: char, i: int) -> Option<int>
    decreases s.len() - i,
{
    if i < 0 || i >= s.len() {
        None
    } else if s[i] == c {
        Some(i)
    } else {
        first_at_or_after(s, c, i + 1)
    }
}

/// The last position before `j` that holds `c`.
pub open spec fn last_before(s: Seq<char>, c: char, j: int) -> Option<int>
    decreases j,
{
    if j <= 0 || j > s.len() {
        None
    } else if s[j - 1] == c {
        Some(j - 1)
    } else {
        last_before(s, c, j - 1)
    }
}

/// The text from the first `{` to the last `}`, both included; none when
/// either brace is missing or the last `}` comes before the first `{`.
pub open spec fn json_object_span(s: Seq<char>) -> Option<Seq<char>> {
    match (first_at_or_after(s, '{', 0), last_before(s, '}', s.len() as int)) {
        (Some(open), Some(close)) => if close < open {
            None
        } else {
            Some(s.subrange(open, close + 1))
        },
        _ => None,
    }
}

/// The first position at or after `i` that holds an ASCII digit.
pub open spec fn first_digit_at_or_after(s: Seq<char>, i: int) -> Option<int>
    decreases s.len() - i,
{
    if i < 0 || i >= s.len() {
        None
    } else if is_digit(s[i]) {
        Some(i)
    } else {
        first_digit_at_or_after(s, i + 1)
    }
}

/// The length of the numeral at the start of `s`: digits, and at most one
/// `.` among them (a second `.` ends it).
pub open spec fn numeral_len(s: Seq<char>, seen_dot: bool) -> nat
    decreases s.len(),
{
    if s.len() == 0 {
        0
    } else if is_digit(s[0]) {
        1 + numeral_len(s.drop_first(), seen_dot)
    } else if s[0] == '.' && !seen_dot {
        1 + numeral_len(s.drop_first(), true)
    } else {
        0
    }
}

/// The first unsigned numeral in `s`: from its first ASCII digit, the
/// digits and at most one decimal point that follow.
pub open spec fn first_numeral(s: Seq<char>) -> Option<Seq<char>> {
    match first_digit_at_or_after(s, 0) {
        Some(i) => Some(s.subrange(i, i + numeral_len(s.skip(i), false))),
        None => None,
    }
}

/// The first `{ ... }` block of `text`: from its first `{` to its last `}`.
pub fn extract_json_object(text: &str) -> (r: Option<String>)
    ensures
        match r {
            Some(j) => json_object_span(text@) == Some(j@),
            None => json_object_span(text@) is None,
        },
{
    let s = chars_of(text);
    let n = s.len();
    let mut open: usize = 0;
    while open < n && s[open] != '{'
        invariant
            0 <= open <= n,
            n == s@.len(),
            first_at_or_after(s@, '{', 0) == first_at_or_after(s@, '{', open as int),
        decreases n - open,
    {
        open += 1;
    }
    if open == n {
        return None;
    }
    let mut close: usize = n;
    while close > 0 && s[close - 1] != '}'
        invariant
            0 <= close <= n,
            n == s@.len(),
            last_before(s@, '}', n as int) == last_before(s@, '}', close as int),
        decreases close,
    {
        close -= 1;
    }
    if close == 0 {
        return None;
    }
    let close = close - 1;
    if close < open {
        return None;
    }
    let j = slice_chars(&s, open, close + 1);
    Some(string_of(&j))
}

/// The first unsigned numeral in `text` (the part of a price reply that is
/// read as the price when the reply holds no usable JSON).
pub fn first_number_token(text: &str) -> (r: Option<String>)
    ensures
        match r {
            Some(t) => first_numeral(text@) == Some(t@),
            None => first_numeral(text@) is None,
        },
{
    let s = chars_of(text);
    let n = s.len();
    let mut i: usize = 0;
    while i < n && !('0' <= s[i] && s[i] <= '9')
        invariant
            0 <= i <= n,
            n == s@.len(),
            first_digit_at_or_after(s@, 0) == first_digit_at_or_after(s@, i as int),
        decreases n - i,
    {
        i += 1;
    }
    if i == n {
        return None;
    }
    let mut j: usize = i;
    let mut seen_dot = false;
    assert(s@.skip(i as int).skip(0) =~= s@.skip(i as int));
    while j < n && (('0' <= s[j] && s[j] <= '9') || (s[j] == '.' && !seen_dot))
        invariant
            i <= j <= n,
            n == s@.len(),
            numeral_len(s@.skip(i as int), false) == (j - i) + numeral_len(
                s@.skip(j as int),
                seen_dot,
            ),
        decreases n - j,
    {
        assert(s@.skip(j as int).drop_first() =~= s@.skip(j + 1));
        if s[j] == '.' {
            seen_dot = true;
        }
        j += 1;
    }
    assert(numeral_len(s@.skip(j as int), seen_dot) == 0);
    let t = slice_chars(&s, i, j);
    Some(string_of(&t))
}

// ---------------------------------------------------------------------------
// JSON objects
// ---------------------------------------------------------------------------

/// What `serde_json` reads from `text` as a `Value`: `None` unless the text
/// is one JSON object; otherwise the object's members in the order of its
/// map, each with the text of its value when that value is a JSON string
/// and `None` when it is not a string.
pub uninterp spec fn json_object_members(text: Seq<char>) -> Option<
    Seq<(Seq<char>, Option<Seq<char>>)>,
>;

/// The view of one member.
pub open spec fn member_view(m: (String, Option<String>)) -> (Seq<char>, Option<Seq<char>>) {
    (
        m.0@,
        match m.1 {
            Some(v) => Some(v@),
            None => None,
        },
    )
}

/// The view of a list of members.
pub open spec fn members_view(ms: Seq<(String, Option<String>)>) -> Seq<
    (Seq<char>, Option<Seq<char>>),
> {
    ms.map_values(|m: (String, Option<String>)| member_view(m))
}

/// Parses `text` with `serde_json::from_str::<serde_json::Value>` and, when
/// it is an object, lists the object's members: the key, and the value's
/// text when the value is a JSON string.  Claimed: the result is
/// `json_object_members(text)`, a function of the text alone; nothing is
/// claimed about which texts are objects or what their members are.
#[verifier::external_body]
fn parse_json_object(text: &str) -> (r: Option<Vec<(String, Option<String>)>>)
    ensures
        match r {
            Some(ms) => json_object_members(text@) == Some(members_view(ms@)),
            None => json_object_members(text@) is None,
        },
{
    match serde_json::from_str::<serde_json::Value>(text) {
        Ok(serde_json::Value::Object(map)) => Some(
            map.into_iter().map(
                |(k, v)|
                    match v {
                        serde_json::Value::String(s) => (k, Some(s)),
                        _ => (k, None),
                    },
            ).collect(),
        ),
        _ => None,
    }
}

/// The text of the string member named `key` (the first member with that
/// key); none when there is no such member or its value is not a string.
pub open spec fn member_text(ms: Seq<(Seq<char>, Option<Seq<char>>)>, key: Seq<char>) -> Option<
    Seq<char>,
>
    decreases ms.len(),
{
    if ms.len() == 0 {
        None
    } else if ms[0].0 == key {
        ms[0].1
    } else {
        member_text(ms.drop_first(), key)
    }
}

/// The trimmed text of the string member `key`, when it is not blank.
pub open spec fn keyed_message(ms: Seq<(Seq<char>, Option<Seq<char>>)>, key: Seq<char>) -> Option<
    Seq<char>,
> {
    match member_text(ms, key) {
        Some(v) => if trim(v).len() > 0 {
            Some(trim(v))
        } else {
            None
        },
        None => None,
    }
}

/// The message of a JSON reply: the first non-blank string member among
/// `message`, `msg` and `text`, in that order, trimmed.
pub open spec fn members_message(ms: Seq<(Seq<char>, Option<Seq<char>>)>) -> Option<Seq<char>> {
    match keyed_message(ms, "message"@) {
        Some(m) => Some(m),
        None => match keyed_message(ms, "msg"@) {
            Some(m) => Some(m),
            None => keyed_message(ms, "text"@),
        },
    }
}

/// The message of a reply, given what its JSON object parsed to: the JSON
/// message if there is one, else the reply's words joined by single spaces,
/// none when the reply has no words.
pub open spec fn reply_message(
    text: Seq<char>,
    members: Option<Seq<(Seq<char>, Option<Seq<char>>)>>,
) -> Option<Seq<char>> {
    let from_json = match members {
        Some(ms) => members_message(ms),
        None => None,
    };
    match from_json {
        Some(m) => Some(m),
        None => if collapse_spaces(text).len() > 0 {
            Some(collapse_spaces(text))
        } else {
            None
        },
    }
}

/// The message of a reply (`{"message": "..."}` or plain text).
pub open spec fn parse_message_spec(text: Seq<char>) -> Option<Seq<char>> {
    reply_message(
        text,
        match json_object_span(text) {
            Some(j) => json_object_members(j),
            None => None,
        },
    )
}

/// The view of an optional list of members.
pub open spec fn opt_members_view(members: Option<Vec<(String, Option<String>)>>) -> Option<
    Seq<(Seq<char>, Option<Seq<char>>)>,
> {
    match members {
        Some(ms) => Some(members_view(ms@)),
        None => None,
    }
}

/// The trimmed text of the string member `key`, when it is not blank.
fn find_keyed_message(ms: &Vec<(String, Option<String>)>, key: &str) -> (r: Option<Vec<char>>)
    ensures
        match r {
            Some(m) => keyed_message(members_view(ms@), key@) == Some(m@),
            None => keyed_message(members_view(ms@), key@) is None,
        },
{
    let ghost all = members_view(ms@);
    let k = chars_of(key);
    let mut i: usize = 0;
    assert(all.skip(0) =~= all);
    while i < ms.len()
        invariant
            0 <= i <= ms@.len(),
            all == members_view(ms@),
            k@ == key@,
            member_text(all, key@) == member_text(all.skip(i as int), key@),
        decreases ms@.len() - i,
    {
        assert(all.skip(i as int).drop_first() =~= all.skip(i + 1));
        assert(all.skip(i as int)[0] == member_view(ms@[i as int]));
        let name = chars_of(ms[i].0.as_str());
        if chars_eq(&name, &k) {
            match &ms[i].1 {
                Some(v) => {
                    let t = trim_chars(&chars_of(v.as_str()));
                    if t.len() > 0 {
                        return Some(t);
                    } else {
                        return None;
                    }
                },
                None => {
                    return None;
                },
            }
        }
        i += 1;
    }
    None
}

/// The message of a reply, given what the reply's JSON object parsed to
/// (`None` when the reply holds no object).
pub fn message_from_members(text: &str, members: &Option<Vec<(String, Option<String>)>>) -> (r:
    Option<String>)
    ensures
        match r {
            Some(m) => reply_message(text@, opt_members_view(*members)) == Some(m@),
            None => reply_message(text@, opt_members_view(*members)) is None,
        },
{
    if let Some(ms) = members {
        if let Some(m) = find_keyed_message(ms, "message") {
            return Some(string_of(&m));
        }
        if let Some(m) = find_keyed_message(ms, "msg") {
            return Some(string_of(&m));
        }
        if let Some(m) = find_keyed_message(ms, "text") {
            return Some(string_of(&m));
        }
    }
    let words = collapse_space_chars(&chars_of(text));
    if words.len() == 0 {
        None
    } else {
        Some(string_of(&words))
    }
}

/// Reads a message reply: the JSON `{"message": "..."}` (keys `msg` and
/// `text` are accepted too) if the reply holds one with a non-blank
/// message, else the reply's words joined by single spaces; none when the
/// reply is blank.
pub fn parse_message(text: &str) -> (r: Option<String>)
    ensures
        match r {
            Some(m) => parse_message_spec(text@) == Some(m@),
            None => parse_message_spec(text@) is None,
        },
{
    let members = match extract_json_object(text) {
        Some(json) => parse_json_object(json.as_str()),
        None => None,
    };
    message_from_members(text, &members)
}

/// `t` is a numeral standing at position `i` of `s`, and it is the first
/// one: no digit comes before it, it begins with a digit, it holds digits
/// and at most one `.`, and it is not followed by a digit, nor by a `.`
/// that it could still take (a numeral without a point takes one).
pub open spec fn first_numeral_at(s: Seq<char>, i: int, t: Seq<char>) -> bool {
    &&& 0 <= i && i + t.len() <= s.len()
    &&& s.subrange(i, i + t.len()) == t
    &&& forall|k: int| 0 <= k < i ==> !is_digit(#[trigger] s[k])
    &&& t.len() > 0 && is_digit(t[0])
    &&& forall|k: int| 0 <= k < t.len() ==> is_digit(#[trigger] t[k]) || t[k] == '.'
    &&& forall|a: int, b: int| 0 <= a < b < t.len() && #[trigger] t[a] == '.' ==> #[trigger] t[b]
        != '.'
    &&& i + t.len() < s.len() ==> !is_digit(s[i + t.len()])
    &&& i + t.len() < s.len() && s[i + t.len()] == '.' ==> exists|k: int|
        0 <= k < t.len() && #[trigger] t[k] == '.'
}

proof fn lemma_numeral_len_shape(s: Seq<char>, seen: bool)
    ensures
        numeral_len(s, seen) <= s.len(),
        forall|k: int|
            0 <= k < numeral_len(s, seen) ==> is_digit(#[trigger] s[k]) || (s[k] == '.' && !seen),
        forall|a: int, b: int|
            0 <= a < b < numeral_len(s, seen) && #[trigger] s[a] == '.' ==> #[trigger] s[b] != '.',
        numeral_len(s, seen) < s.len() ==> !is_digit(s[numeral_len(s, seen) as int]),
        numeral_len(s, seen) < s.len() && s[numeral_len(s, seen) as int] == '.' ==> seen
            || exists|k: int| 0 <= k < numeral_len(s, seen) && #[trigger] s[k] == '.',
    decreases s.len(),
{
    if s.len() > 0 {
        let t = s.drop_first();
        if is_digit(s[0]) {
            lemma_numeral_len_shape(t, seen);
            let n = numeral_len(s, seen);
            assert forall|k: int| 0 <= k < n implies is_digit(#[trigger] s[k]) || (s[k] == '.'
                && !seen) by {
                if k > 0 {
                    assert(s[k] == t[k - 1]);
                }
            }
            assert forall|a: int, b: int| 0 <= a < b < n && #[trigger] s[a] == '.' implies #[trigger] s[b]
                != '.' by {
                assert(s[b] == t[b - 1]);
                if a > 0 {
                    assert(s[a] == t[a - 1]);
                }
            }
            if n < s.len() {
                assert(s[n as int] == t[n - 1]);
                if s[n as int] == '.' && !seen {
                    let k = choose|k: int| 0 <= k < numeral_len(t, seen) && #[trigger] t[k] == '.';
                    assert(s[k + 1] == t[k]);
                }
            }
        } else if s[0] == '.' && !seen {
            lemma_numeral_len_shape(t, true);
            let n = numeral_len(s, seen);
            assert forall|k: int| 0 <= k < n implies is_digit(#[trigger] s[k]) || (s[k] == '.'
                && !seen) by {
                if k > 0 {
                    assert(s[k] == t[k - 1]);
                }
            }
            assert forall|a: int, b: int| 0 <= a < b < n && #[trigger] s[a] == '.' implies #[trigger] s[b]
                != '.' by {
                assert(s[b] == t[b - 1]);
                assert(is_digit(t[b - 1]) || (t[b - 1] == '.' && !true));
            }
            if n < s.len() {
                assert(s[n as int] == t[n - 1]);
            }
        }
    }
}

proof fn lemma_first_digit_found(s: Seq<char>, i: int)
    requires
        0 <= i,
    ensures
        first_digit_at_or_after(s, i) matches Some(k) ==> i <= k < s.len() && is_digit(s[k])
            && forall|m: int| i <= m < k ==> !is_digit(#[trigger] s[m]),
        first_digit_at_or_after(s, i) is None ==> forall|m: int|
            i <= m < s.len() ==> !is_digit(#[trigger] s[m]),
    decreases s.len() - i,
{
    if i < s.len() && !is_digit(s[i]) {
        lemma_first_digit_found(s, i + 1);
    }
}

/// The numeral that a price reply falls back to is the first numeral of
/// the reply, read whole: there is none exactly when the reply has no
/// digit, and otherwise it is the first numeral of the reply, standing at
/// the position returned.
pub proof fn lemma_first_numeral_shape(s: Seq<char>) -> (i: int)
    ensures
        first_numeral(s) is None <==> forall|k: int| 0 <= k < s.len() ==> !is_digit(#[trigger] s[k]),
        first_numeral(s) matches Some(t) ==> first_numeral_at(s, i, t),
{
    lemma_first_digit_found(s, 0);
    if let Some(i) = first_digit_at_or_after(s, 0) {
        let rest = s.skip(i);
        lemma_numeral_len_shape(rest, false);
        let n = numeral_len(rest, false);
        let t = s.subrange(i, i + n);
        assert(rest[0] == s[i]);
        assert(n >= 1) by {
            assert(rest.drop_first().len() + 1 == rest.len());
        }
        assert forall|k: int| 0 <= k < t.len() implies is_digit(#[trigger] t[k]) || t[k] == '.' by {
            assert(t[k] == rest[k]);
        }
        assert forall|a: int, b: int| 0 <= a < b < t.len() && #[trigger] t[a] == '.' implies #[trigger] t[b]
            != '.' by {
            assert(t[a] == rest[a]);
            assert(t[b] == rest[b]);
        }
        if i + n < s.len() {
            assert(s[i + n] == rest[n as int]);
            if s[i + n] == '.' {
                let k = choose|k: int| 0 <= k < n && #[trigger] rest[k] == '.';
                assert(t[k] == rest[k]);
            }
        }
        assert(t[0] == s[i]);
        assert(first_numeral_at(s, i, t));
        assert(first_numeral(s) == Some(t));
        assert(!(forall|k: int| 0 <= k < s.len() ==> !is_digit(#[trigger] s[k])));
        i
    } else {
        0
    }
}

proof fn lemma_first_scan(s: Seq<char>, c: char, i: int)
    requires
        0 <= i,
    ensures
        first_at_or_after(s, c, i) matches Some(k) ==> i <= k < s.len() && s[k] == c && forall|m: int|
            i <= m < k ==> #[trigger] s[m] != c,
        first_at_or_after(s, c, i) is None ==> forall|m: int| i <= m < s.len() ==> #[trigger] s[m] != c,
    decreases s.len() - i,
{
    if i < s.len() && s[i] != c {
        lemma_first_scan(s, c, i + 1);
    }
}

proof fn lemma_last_scan(s: Seq<char>, c: char, j: int)
    requires
        0 <= j <= s.len(),
    ensures
        last_before(s, c, j) matches Some(k) ==> 0 <= k < j && s[k] == c && forall|m: int|
            k < m < j ==> #[trigger] s[m] != c,
        last_before(s, c, j) is None ==> forall|m: int| 0 <= m < j ==> #[trigger] s[m] != c,
    decreases j,
{
    if j > 0 && s[j - 1] != c {
        lemma_last_scan(s, c, j - 1);
    }
}

/// The JSON object of a reply is the span from its first `{` to its last
/// `}`: the span returned starts at the position returned, opens with the
/// reply's first `{` and closes with its last `}`; and there is none
/// exactly when no `{` comes at or before a `}`.
pub proof fn lemma_json_span_shape(s: Seq<char>) -> (open: int)
    ensures
        json_object_span(s) matches Some(j) ==> {
            &&& 0 <= open && open + j.len() <= s.len()
            &&& s.subrange(open, open + j.len()) == j
            &&& j.len() >= 1 && j[0] == '{' && j.last() == '}'
            &&& forall|m: int| 0 <= m < open ==> #[trigger] s[m] != '{'
            &&& forall|m: int| open + j.len() <= m < s.len() ==> #[trigger] s[m] != '}'
        },
        json_object_span(s) is None <==> forall|a: int, b: int|
            0 <= a <= b < s.len() && #[trigger] s[a] == '{' ==> #[trigger] s[b] != '}',
{
    lemma_first_scan(s, '{', 0);
    lemma_last_scan(s, '}', s.len() as int);
    match (first_at_or_after(s, '{', 0), last_before(s, '}', s.len() as int)) {
        (Some(o), Some(c)) => {
            if c < o {
                assert forall|a: int, b: int|
                    0 <= a <= b < s.len() && #[trigger] s[a] == '{' implies #[trigger] s[b] != '}' by {
                    if s[b] == '}' {
                        assert(!(o <= a) ==> s[a] != '{');
                    }
                }
            } else {
                let j = s.subrange(o, c + 1);
                assert(j[0] == s[o]);
                assert(j.last() == s[c]);
                assert(s[o] == '{' && s[c] == '}');
            }
            o
        },
        _ => 0,
    }
}

proof fn lemma_first_at(s: Seq<char>, c: char, k: int, i: int)
    requires
        0 <= i <= k < s.len(),
        s[k] == c,
        forall|m: int| i <= m < k ==> s[m] != c,
    ensures
        first_at_or_after(s, c, i) == Some(k),
    decreases k - i,
{
    if i < k {
        lemma_first_at(s, c, k, i + 1);
    }
}

proof fn lemma_last_at(s: Seq<char>, c: char, k: int, j: int)
    requires
        0 <= k < j <= s.len(),
        s[k] == c,
        forall|m: int| k < m < j ==> s[m] != c,
    ensures
        last_before(s, c, j) == Some(k),
    decreases j,
{
    if j - 1 > k {
        lemma_last_at(s, c, k, j - 1);
    }
}

/// The JSON object of a reply is found wherever the reply puts it: with
/// no brace in the prose before and after it, the span from the first `{`
/// to the last `}` is exactly the object.
pub proof fn lemma_span_of_wrapped_object(a: Seq<char>, j: Seq<char>, c: Seq<char>)
    requires
        j.len() >= 1,
        j[0] == '{',
        j.last() == '}',
        forall|m: int| 0 <= m < a.len() ==> a[m] != '{' && a[m] != '}',
        forall|m: int| 0 <= m < c.len() ==> c[m] != '{' && c[m] != '}',
    ensures
        json_object_span(a + j + c) == Some(j),
{
    let t = a + j + c;
    let open = a.len() as int;
    let close = a.len() + j.len() - 1;
    assert(t[open] == j[0]);
    assert(t[close] == j[j.len() - 1]);
    assert forall|m: int| 0 <= m < open implies t[m] != '{' by {
        assert(t[m] == a[m]);
    }
    assert forall|m: int| close < m < t.len() implies t[m] != '}' by {
        assert(t[m] == c[m - close - 1]);
    }
    lemma_first_at(t, '{', open, 0);
    lemma_last_at(t, '}', close, t.len() as int);
    assert(t.subrange(open, close + 1) =~= j);
}

/// A message is read from the reply's JSON object alone: when the object
/// (from the first `{` to the last `}`) holds a non-blank string
/// `message`, the reply's message is that string, trimmed, whatever prose
/// stands around the object.
pub proof fn lemma_message_from_object(
    text: Seq<char>,
    j: Seq<char>,
    ms: Seq<(Seq<char>, Option<Seq<char>>)>,
    v: Seq<char>,
)
    requires
        json_object_span(text) == Some(j),
        json_object_members(j) == Some(ms),
        member_text(ms, "message"@) == Some(v),
        trim(v).len() > 0,
    ensures
        parse_message_spec(text) == Some(trim(v)),
{
}

/// Prose around a JSON message changes nothing: a reply that wraps an
/// object with a message in prose without braces yields the same message
/// as the object on its own.
pub proof fn lemma_message_ignores_prose(a: Seq<char>, j: Seq<char>, c: Seq<char>)
    requires
        j.len() >= 1,
        j[0] == '{',
        j.last() == '}',
        forall|m: int| 0 <= m < a.len() ==> a[m] != '{' && a[m] != '}',
        forall|m: int| 0 <= m < c.len() ==> c[m] != '{' && c[m] != '}',
        json_object_members(j) matches Some(ms) && members_message(ms) is Some,
    ensures
        parse_message_spec(a + j + c) == parse_message_spec(j),
        parse_message_spec(j) == members_message(json_object_members(j)->0),
{
    lemma_span_of_wrapped_object(a, j, c);
    let e = Seq::<char>::empty();
    lemma_span_of_wrapped_object(e, j, e);
    assert(e + j + e =~= j);
}

proof fn lemma_first_found(s: Seq<char>, c: char, i: int)
    ensures
        first_at_or_after(s, c, i) matches Some(k) ==> 0 <= k < s.len() && s[k] == c,
    decreases s.len() - i,
{
    if 0 <= i < s.len() && s[i] != c {
        lemma_first_found(s, c, i + 1);
    }
}

/// A reply yields a message exactly when it is not blank: a blank reply
/// yields none, and any reply with a visible character yields one (from its
/// JSON object if that has a message, else from its words).
pub proof fn lemma_message_iff_not_blank(text: Seq<char>)
    ensures
        parse_message_spec(text) is Some <==> exists|i: int|
            0 <= i < text.len() && !is_space(#[trigger] text[i]),
{
    lemma_collapse_empty_iff_blank(text);
    lemma_first_found(text, '{', 0);
    if forall|i: int| 0 <= i < text.len() ==> is_space(#[trigger] text[i]) {
        if let Some(k) = first_at_or_after(text, '{', 0) {
            assert(is_space(text[k]));
        }
        assert(json_object_span(text) is None);
    }
}

} // verus!
