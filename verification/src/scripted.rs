//! Reading a prompt, for the scripted offline client: that client answers
//! a talk prompt with a fixed message, and each pricing prompt by moving the
//! firm's last price halfway towards the midpoint of the Bertrand and cartel
//! prices that the prompt quotes.  Here the client tells the two kinds of
//! prompt apart and locates the numbers; converting them to floats and the
//! arithmetic of the policy stay with the client.  The module `readback`
//! proves that what is located is what the prompts quote.

use vstd::prelude::*;

use crate::replies::numeral_len;
use crate::text::{
    chars_of, contains_chars, find_chars, find_from, has_infix, is_digit,
    lemma_split_fields_nonempty, slice_chars, split_fields, string_of, texts, trim_start,
};

verus! {

/// `s` without its trailing `.` characters (`str::trim_end_matches('.')`).
pub open spec fn strip_trailing_dots(s: Seq<char>) -> Seq<char>
    decreases s.len(),
{
    if s.len() > 0 && s.last() == '.' {
        strip_trailing_dots(s.drop_last())
    } else {
        s
    }
}

/// The numeral quoted after the first occurrence of `marker`: white space
/// skipped, then digits with at most one decimal point, a final point
/// dropped (so `"8.00."` gives `8.00`).  Empty when no digit follows; none
/// when the marker does not occur.
pub open spec fn number_after_text(prompt: Seq<char>, marker: Seq<char>) -> Option<Seq<char>> {
    match find_from(prompt, marker, 0) {
        Some(i) => {
            let rest = trim_start(prompt.skip(i + marker.len()));
            Some(strip_trailing_dots(rest.take(numeral_len(rest, false) as int)))
        },
        None => None,
    }
}

/// The length of the run of digits and points at the start of `s`.
pub open spec fn digit_dot_run(s: Seq<char>) -> nat
    decreases s.len(),
{
    if s.len() > 0 && (is_digit(s[0]) || s[0] == '.') {
        1 + digit_dot_run(s.drop_first())
    } else {
        0
    }
}

/// The run of digits and points that follows the first `"your price "` of
/// a line, if the line has one.
pub open spec fn line_price_text(line: Seq<char>) -> Option<Seq<char>> {
    match find_from(line, YOUR_PRICE@, 0) {
        Some(i) => {
            let rest = line.skip(i + YOUR_PRICE@.len());
            Some(rest.take(digit_dot_run(rest) as int))
        },
        None => None,
    }
}

/// The price texts of the lines that quote one, in line order.
pub open spec fn line_prices(lines: Seq<Seq<char>>) -> Seq<Seq<char>>
    decreases lines.len(),
{
    if lines.len() == 0 {
        Seq::empty()
    } else {
        let rest = line_prices(lines.drop_last());
        match line_price_text(lines.last()) {
            Some(t) => rest.push(t),
            None => rest,
        }
    }
}

/// The marker before the Bertrand price that a pricing prompt quotes.
pub const BERTRAND_MARKER: &'static str = "Bertrand) price is around ";

/// The marker before the cartel price that a pricing prompt quotes.
pub const CARTEL_MARKER: &'static str = "monopoly/cartel) price is around ";

/// The marker of a history line's own price.
pub const YOUR_PRICE: &'static str = "your price ";

/// The heading by which the scripted client tells a talk prompt from a
/// pricing prompt.
pub const MESSAGE_MARKER: &'static str = "## Message";

/// The reply of the scripted client to every talk prompt.
pub const SCRIPTED_MESSAGE_REPLY: &'static str =
    "{\"message\": \"Let's both hold prices high to keep margins up.\"}";

/// Whether `prompt` asks for a message (it holds the `## Message` heading),
/// so that the scripted client answers with `SCRIPTED_MESSAGE_REPLY`
/// rather than a price.
pub fn asks_for_message(prompt: &str) -> (r: bool)
    ensures
        r == has_infix(prompt@, MESSAGE_MARKER@),
{
    contains_chars(&chars_of(prompt), &chars_of(MESSAGE_MARKER))
}

/// The numeral quoted after the first occurrence of `marker` in `prompt`.
pub fn number_after_token(prompt: &str, marker: &str) -> (r: Option<String>)
    ensures
        match r {
            Some(t) => number_after_text(prompt@, marker@) == Some(t@),
            None => number_after_text(prompt@, marker@) is None,
        },
{
    let p = chars_of(prompt);
    let m = chars_of(marker);
    let i = match find_chars(&p, &m) {
        Some(i) => i,
        None => {
            return None;
        },
    };
    proof {
        crate::text::lemma_find_in_bounds(p@, m@, 0);
    }
    let n = p.len();
    let mut k = i + m.len();
    let ghost after = p@.skip(k as int);
    while k < n && crate::text::is_space_char(p[k])
        invariant
            i + m@.len() <= k <= n,
            n == p@.len(),
            after == p@.skip(i + m@.len()),
            trim_start(after) == trim_start(p@.skip(k as int)),
        decreases n - k,
    {
        assert(p@.skip(k as int).drop_first() =~= p@.skip(k + 1));
        k += 1;
    }
    assert(trim_start(p@.skip(k as int)) == p@.skip(k as int));
    let start = k;
    let mut j = k;
    let mut seen_dot = false;
    assert(p@.skip(start as int).skip(0) =~= p@.skip(start as int));
    while j < n && (('0' <= p[j] && p[j] <= '9') || (p[j] == '.' && !seen_dot))
        invariant
            start <= j <= n,
            n == p@.len(),
            numeral_len(p@.skip(start as int), false) == (j - start) + numeral_len(
                p@.skip(j as int),
                seen_dot,
            ),
        decreases n - j,
    {
        assert(p@.skip(j as int).drop_first() =~= p@.skip(j + 1));
        if p[j] == '.' {
            seen_dot = true;
        }
        j += 1;
    }
    assert(numeral_len(p@.skip(j as int), seen_dot) == 0);
    assert(p@.skip(start as int).take(j - start) =~= p@.subrange(start as int, j as int));
    let mut end = j;
    while end > start && p[end - 1] == '.'
        invariant
            start <= end <= j,
            j <= n,
            n == p@.len(),
            strip_trailing_dots(p@.subrange(start as int, j as int)) == strip_trailing_dots(
                p@.subrange(start as int, end as int),
            ),
        decreases end - start,
    {
        assert(p@.subrange(start as int, end as int).drop_last() =~= p@.subrange(
            start as int,
            end - 1,
        ));
        end -= 1;
    }
    let t = slice_chars(&p, start, end);
    Some(string_of(&t))
}

/// The price text of one line.
fn line_price(line: &Vec<char>, marker: &Vec<char>) -> (r: Option<Vec<char>>)
    requires
        marker@ == YOUR_PRICE@,
    ensures
        match r {
            Some(t) => line_price_text(line@) == Some(t@),
            None => line_price_text(line@) is None,
        },
{
    let i = match find_chars(line, marker) {
        Some(i) => i,
        None => {
            return None;
        },
    };
    proof {
        crate::text::lemma_find_in_bounds(line@, marker@, 0);
    }
    let n = line.len();
    let start = i + marker.len();
    let mut j = start;
    assert(line@.skip(start as int).skip(0) =~= line@.skip(start as int));
    while j < n && (('0' <= line[j] && line[j] <= '9') || line[j] == '.')
        invariant
            start <= j <= n,
            n == line@.len(),
            digit_dot_run(line@.skip(start as int)) == (j - start) + digit_dot_run(
                line@.skip(j as int),
            ),
        decreases n - j,
    {
        assert(line@.skip(j as int).drop_first() =~= line@.skip(j + 1));
        j += 1;
    }
    assert(digit_dot_run(line@.skip(j as int)) == 0);
    assert(line@.skip(start as int).take(j - start) =~= line@.subrange(start as int, j as int));
    Some(slice_chars(line, start, j))
}

/// The texts of the own prices quoted in a prompt's history, in line order:
/// for each line holding `"your price "`, the digits and points that follow
/// its first occurrence.  Lines are split at `\n`; a `\r` before it ends a
/// run of digits like any other character, so `str::lines` gives the same
/// texts.
pub fn price_candidates(prompt: &str) -> (r: Vec<String>)
    ensures
        texts(r@) == line_prices(split_fields(prompt@, '\n')),
{
    let cs = chars_of(prompt);
    let marker = chars_of(YOUR_PRICE);
    let mut out: Vec<String> = Vec::new();
    let mut cur: Vec<char> = Vec::new();
    let mut i: usize = 0;
    proof {
        assert(cs@.take(0) =~= Seq::<char>::empty());
        assert(split_fields(Seq::<char>::empty(), '\n').drop_last() =~= Seq::<Seq<char>>::empty());
    }
    while i < cs.len()
        invariant
            0 <= i <= cs@.len(),
            cs@ == prompt@,
            marker@ == YOUR_PRICE@,
            split_fields(cs@.take(i as int), '\n').len() >= 1,
            cur@ == split_fields(cs@.take(i as int), '\n').last(),
            texts(out@) == line_prices(split_fields(cs@.take(i as int), '\n').drop_last()),
        decreases cs@.len() - i,
    {
        let ghost f = split_fields(cs@.take(i as int), '\n');
        let c = cs[i];
        assert(cs@.take(i + 1).drop_last() =~= cs@.take(i as int));
        assert(cs@.take(i + 1).last() == c);
        if c == '\n' {
            assert(f.push(Seq::empty()).drop_last() =~= f);
            assert(f.drop_last().push(f.last()) =~= f);
            if let Some(t) = line_price(&cur, &marker) {
                let ghost before = out@;
                out.push(string_of(&t));
                assert(texts(out@) =~= texts(before).push(t@));
            }
            cur = Vec::new();
        } else {
            cur.push(c);
            assert(f.update(f.len() - 1, f.last().push(c)).drop_last() =~= f.drop_last());
        }
        i += 1;
        proof {
            lemma_split_fields_nonempty(cs@.take(i as int), '\n');
        }
    }
    assert(cs@.take(cs@.len() as int) =~= cs@);
    let ghost f = split_fields(cs@, '\n');
    assert(f.drop_last().push(f.last()) =~= f);
    if let Some(t) = line_price(&cur, &marker) {
        let ghost before = out@;
        out.push(string_of(&t));
        assert(texts(out@) =~= texts(before).push(t@));
    }
    out
}

} // verus!
