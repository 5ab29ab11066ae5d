//! What the scripted client reads back out of the prompts.
//!
//! `lemma_benchmarks_read_back`: the numbers that the client locates after
//! the benchmark markers of a pricing prompt are exactly the Bertrand and
//! cartel prices that the prompt quotes, so the client steers each firm
//! towards its own midpoint (asymmetric costs give asymmetric prices).
//! `lemma_last_price_read_back`: the last own price that it locates is the
//! firm's price of the most recent remembered round.
//! `lemma_talk_prompt_asks_for_message` and
//! `lemma_pricing_prompt_asks_for_price`: it answers talk prompts with its
//! message and pricing prompts with a price.

use vstd::prelude::*;

use crate::persona::{directive_of, Persona};
use crate::prompts::{
    communication_prompt_text, communication_section, cost_rule, history_line, history_lines,
    join_list, message_lines, persona_section, pricing_history, pricing_payoffs,
    pricing_prompt_text, pricing_rules, reference_line, reflection_section, round_rule,
    CommunicationBriefing, HistoryEntry, PricingBriefing, BLANK_LINE, COST_HEAD, COST_TAIL,
    DECISION, FIRST_ROUND, HISTORY_HEAD, LINE_END, LIST_SEP, MESSAGE_REQUEST, NEWLINE,
    NO_TALK_RULE, PARAGRAPH_END, PAYOFFS, PERSONA_HEAD, PRICE_HEAD, PRICING_GENERAL,
    PRICING_OBJECTIVE, PROFIT_HEAD, QUANTITY_HEAD, REFERENCE_HEAD, REFERENCE_MID,
    REFLECTION_HEAD, REFLECTION_MID, REFLECTION_TAIL, RIVALS_HEAD, RIVAL_HEAD, RIVAL_MID,
    RIVAL_TAIL, ROUND_HEAD, RULES_HEAD, SIMULTANEOUS_RULE, TALK_FOOT, TALK_GENERAL, TALK_HEAD, TALK_RULE,
};
use crate::replies::numeral_len;
use crate::scripted::{
    digit_dot_run, line_price_text, line_prices, number_after_text, strip_trailing_dots,
    BERTRAND_MARKER,
    CARTEL_MARKER, MESSAGE_MARKER, YOUR_PRICE,
};
use crate::text::{
    decimal, digit_char, find_from, has_infix, is_digit, is_space, lemma_split_fields_nonempty,
    split_fields, texts, trim, trim_start, trimmed_nonblank,
};

verus! {

// ---------------------------------------------------------------------------
// Reading the benchmarks back
// ---------------------------------------------------------------------------

/// `s` holds no `c`.
pub open spec fn lacks(s: Seq<char>, c: char) -> bool {
    forall|i: int| 0 <= i < s.len() ==> s[i] != c
}

/// `s` holds a `.`.
pub open spec fn has_dot(s: Seq<char>) -> bool {
    exists|i: int| 0 <= i < s.len() && s[i] == '.'
}

/// A plain decimal numeral: digits with at most one decimal point, neither
/// at the start nor at the end (as `{:.2}` renders a non-negative price).
pub open spec fn plain_numeral(s: Seq<char>) -> bool {
    &&& s.len() > 0
    &&& is_digit(s[0])
    &&& is_digit(s.last())
    &&& forall|i: int| 0 <= i < s.len() ==> is_digit(#[trigger] s[i]) || s[i] == '.'
    &&& forall|i: int, j: int| 0 <= i < j < s.len() && s[i] == '.' ==> s[j] != '.'
}

proof fn lemma_numeral_len_concat(s: Seq<char>, t: Seq<char>, seen: bool)
    requires
        forall|i: int| 0 <= i < s.len() ==> is_digit(#[trigger] s[i]) || s[i] == '.',
        forall|i: int, j: int| 0 <= i < j < s.len() && s[i] == '.' ==> s[j] != '.',
        seen ==> !has_dot(s),
    ensures
        numeral_len(s + t, seen) == s.len() + numeral_len(t, seen || has_dot(s)),
    decreases s.len(),
{
    if s.len() == 0 {
        assert(s + t =~= t);
    } else {
        let rest = s.drop_first();
        assert((s + t).drop_first() =~= rest + t);
        assert((s + t)[0] == s[0]);
        assert forall|i: int| 0 <= i < rest.len() implies is_digit(#[trigger] rest[i])
            || rest[i] == '.' by {
            assert(rest[i] == s[i + 1]);
        }
        let seen2 = seen || s[0] == '.';
        if seen2 {
            assert forall|i: int| 0 <= i < rest.len() implies rest[i] != '.' by {
                assert(rest[i] == s[i + 1]);
                if s[0] != '.' {
                    assert(!has_dot(s) ==> s[i + 1] != '.');
                }
            }
        }
        lemma_numeral_len_concat(rest, t, seen2);
        if has_dot(s) && s[0] != '.' {
            let k = choose|k: int| 0 <= k < s.len() && s[k] == '.';
            assert(rest[k - 1] == '.');
        }
        if has_dot(rest) {
            let k = choose|k: int| 0 <= k < rest.len() && rest[k] == '.';
            assert(s[k + 1] == '.');
        }
    }
}

proof fn lemma_first_occurrence(p: Seq<char>, marker: Seq<char>, k: int, c: char, off: int, i: int)
    requires
        0 <= off < marker.len(),
        marker[off] == c,
        0 <= i <= k,
        k + marker.len() <= p.len(),
        p.subrange(k, k + marker.len()) == marker,
        forall|j: int| 0 <= j < k + off ==> p[j] != c,
    ensures
        find_from(p, marker, i) == Some(k),
    decreases k - i,
{
    if i < k {
        assert(p.subrange(i, i + marker.len())[off] == p[i + off]);
        lemma_first_occurrence(p, marker, k, c, off, i + 1);
    }
}

/// Reading a numeral back after a marker: when the text before the marker
/// (and the marker before its `c` at `off`) holds no `c`, the marker's
/// first occurrence is this one, and the numeral that follows it is read
/// whole.
proof fn lemma_read_after(
    pre: Seq<char>,
    marker: Seq<char>,
    num: Seq<char>,
    post: Seq<char>,
    c: char,
    off: int,
)
    requires
        0 <= off < marker.len(),
        marker[off] == c,
        lacks(pre, c),
        forall|j: int| 0 <= j < off ==> marker[j] != c,
        plain_numeral(num),
        post.len() >= 2,
        post[0] == ' ' || (post[0] == '.' && !is_digit(post[1]) && post[1] != '.'),
    ensures
        number_after_text(pre + marker + num + post, marker) == Some(num),
{
    let p = pre + marker + num + post;
    let k = pre.len() as int;
    assert(p.subrange(k, k + marker.len()) =~= marker);
    assert forall|j: int| 0 <= j < k + off implies p[j] != c by {
        if j < k {
            assert(p[j] == pre[j]);
        } else {
            assert(p[j] == marker[j - k]);
        }
    }
    lemma_first_occurrence(p, marker, k, c, off, 0);
    let after = p.skip(k + marker.len());
    assert(after =~= num + post);
    assert(!is_space(num[0]));
    assert(after[0] == num[0]);
    assert(trim_start(after) == after);
    lemma_numeral_len_concat(num, post, false);
    let taken = after.take(numeral_len(after, false) as int);
    if post[0] == ' ' {
        assert(numeral_len(post, has_dot(num)) == 0);
        assert(taken =~= num);
    } else if has_dot(num) {
        assert(numeral_len(post, true) == 0);
        assert(taken =~= num);
    } else {
        assert(post.drop_first()[0] == post[1]);
        assert(numeral_len(post.drop_first(), true) == 0);
        assert(numeral_len(post, false) == 1);
        assert(taken =~= num.push('.'));
        assert(num.push('.').drop_last() =~= num);
    }
    assert(strip_trailing_dots(num) == num);
}

proof fn lemma_decimal_digits(n: nat)
    ensures
        forall|i: int| 0 <= i < decimal(n).len() ==> is_digit(#[trigger] decimal(n)[i]),
    decreases n,
{
    if n >= 10 {
        lemma_decimal_digits(n / 10);
        let d = decimal(n);
        assert forall|i: int| 0 <= i < d.len() implies is_digit(#[trigger] d[i]) by {
            if i < d.len() - 1 {
                assert(d[i] == decimal(n / 10)[i]);
            } else {
                assert(d[i] == digit_char(n % 10));
            }
        }
    }
}

/// The text of the pricing prompt up to its quoted prices.
spec fn before_reference(b: PricingBriefing) -> Seq<char> {
    PRICING_GENERAL@ + pricing_rules(b) + PRICING_OBJECTIVE@ + PAYOFFS@
}

proof fn lemma_before_reference_lacks(b: PricingBriefing, c: char)
    requires
        c == 'B' || c == '/',
        plain_numeral(b.cost@),
    ensures
        lacks(before_reference(b), c),
{
    reveal_strlit("## General Information\nYou are the manager of a firm selling a differentiated product in a market with a rival firm. Each round, both firms simultaneously set a unit price; the market then clears and each firm earns a profit. Higher prices raise your margin but can lose demand to your rival; lower prices win demand but cut your margin.\n\n");
    reveal_strlit("## Round Rules\n- This is round ");
    reveal_strlit(".\n");
    reveal_strlit("- You and your rival set prices at the same time (you cannot see this round's rival price before deciding).\n");
    reveal_strlit("- Your marginal cost is ");
    reveal_strlit(" per unit.\n");
    reveal_strlit("- You may have communicated with your rival this round; honour any understanding you reached.\n");
    reveal_strlit("- There is no communication with your rival.\n");
    reveal_strlit("\n");
    reveal_strlit("## Objective\nMaximize your firm's cumulative profit over the long run. Think strategically about how your rival is likely to respond to your price.\n\n");
    reveal_strlit("## Payoffs\nYour profit each round is (your price - your cost) * your quantity sold. Your quantity falls as you raise your own price and rises as your rival raises theirs.\n");
    lemma_decimal_digits(b.round as nat);
    assert(lacks(PRICING_GENERAL@, c));
    assert(lacks(round_rule(b.round), c));
    assert(lacks(SIMULTANEOUS_RULE@, c));
    assert(lacks(cost_rule(b.cost@), c));
    assert(lacks(TALK_RULE@, c));
    assert(lacks(NO_TALK_RULE@, c));
    assert(lacks(NEWLINE@, c));
    assert(lacks(pricing_rules(b), c));
    assert(lacks(PRICING_OBJECTIVE@, c));
    assert(lacks(PAYOFFS@, c));
}

/// The scripted client reads each firm's own benchmark prices back out of
/// its pricing prompt: the numeral after the prompt's first
/// `"Bertrand) price is around "` is the quoted Bertrand price, and the
/// numeral after its first `"monopoly/cartel) price is around "` is the
/// quoted cartel price, whenever the cost and the two prices are quoted as
/// plain numerals.
pub proof fn lemma_benchmarks_read_back(b: PricingBriefing)
    requires
        plain_numeral(b.cost@),
        plain_numeral(b.p_bertrand@),
        plain_numeral(b.p_cartel@),
    ensures
        number_after_text(pricing_prompt_text(b), BERTRAND_MARKER@) == Some(b.p_bertrand@),
        number_after_text(pricing_prompt_text(b), CARTEL_MARKER@) == Some(b.p_cartel@),
{
    reveal_strlit("- For reference, the competitive (Bertrand) price is around ");
    reveal_strlit("Bertrand) price is around ");
    reveal_strlit("- For reference, the competitive (");
    reveal_strlit(" and the fully collusive (monopoly/cartel) price is around ");
    reveal_strlit("monopoly/cartel) price is around ");
    reveal_strlit(" and the fully collusive (");
    reveal_strlit(".\n\n");
    let head = "- For reference, the competitive ("@;
    let mid = " and the fully collusive ("@;
    assert(REFERENCE_HEAD@ =~= head + BERTRAND_MARKER@);
    assert(REFERENCE_MID@ =~= mid + CARTEL_MARKER@);
    let pre = before_reference(b);
    let tail = pricing_prompt_text(b).skip(
        (pre + reference_line(b.p_bertrand@, b.p_cartel@)).len() as int,
    );
    let p = pricing_prompt_text(b);
    assert(p =~= pre + reference_line(b.p_bertrand@, b.p_cartel@) + tail);
    lemma_before_reference_lacks(b, 'B');
    lemma_before_reference_lacks(b, '/');
    // The Bertrand price.
    let post_b = REFERENCE_MID@ + b.p_cartel@ + PARAGRAPH_END@ + tail;
    assert(p =~= (pre + head) + BERTRAND_MARKER@ + b.p_bertrand@ + post_b);
    assert(lacks(pre + head, 'B'));
    lemma_read_after(pre + head, BERTRAND_MARKER@, b.p_bertrand@, post_b, 'B', 0);
    // The cartel price.
    let post_c = PARAGRAPH_END@ + tail;
    let pre_c = pre + REFERENCE_HEAD@ + b.p_bertrand@ + mid;
    assert(p =~= pre_c + CARTEL_MARKER@ + b.p_cartel@ + post_c);
    assert(lacks(pre_c, '/'));
    lemma_read_after(pre_c, CARTEL_MARKER@, b.p_cartel@, post_c, '/', 8);
}

/// The text of the communication prompt up to its quoted prices.
spec fn talk_before_reference(b: CommunicationBriefing) -> Seq<char> {
    TALK_GENERAL@ + round_rule(b.round) + cost_rule(b.cost@)
}

proof fn lemma_talk_before_reference_lacks(b: CommunicationBriefing, c: char)
    requires
        c == ')' || c == '/',
        plain_numeral(b.cost@),
    ensures
        lacks(talk_before_reference(b), c),
{
    reveal_strlit("## General Information\nYou manage a firm selling a differentiated product against a rival firm in a repeated pricing game. Before this round's prices are set, you may send a short message to your rival. Messages are cheap talk: they are not binding and your rival may ignore them.\n\n");
    reveal_strlit("## Round Rules\n- This is round ");
    reveal_strlit(".\n");
    reveal_strlit("- Your marginal cost is ");
    reveal_strlit(" per unit.\n");
    lemma_decimal_digits(b.round as nat);
    assert(lacks(TALK_GENERAL@, c));
    assert(lacks(round_rule(b.round), c));
    assert(lacks(cost_rule(b.cost@), c));
}

/// The communication prompt quotes the briefing's benchmarks in their
/// places: the numeral after its first `"Bertrand) price is around "` is
/// the Bertrand price, and the numeral after its first
/// `"monopoly/cartel) price is around "` is the cartel price, whenever the
/// cost and the two prices are quoted as plain numerals.
pub proof fn lemma_talk_benchmarks_read_back(b: CommunicationBriefing)
    requires
        plain_numeral(b.cost@),
        plain_numeral(b.p_bertrand@),
        plain_numeral(b.p_cartel@),
    ensures
        number_after_text(communication_prompt_text(b), BERTRAND_MARKER@) == Some(b.p_bertrand@),
        number_after_text(communication_prompt_text(b), CARTEL_MARKER@) == Some(b.p_cartel@),
{
    reveal_strlit("- For reference, the competitive (Bertrand) price is around ");
    reveal_strlit("Bertrand) price is around ");
    reveal_strlit("- For reference, the competitive (");
    reveal_strlit(" and the fully collusive (monopoly/cartel) price is around ");
    reveal_strlit("monopoly/cartel) price is around ");
    reveal_strlit(" and the fully collusive (");
    reveal_strlit(".\n\n");
    let head = "- For reference, the competitive ("@;
    let mid = " and the fully collusive ("@;
    assert(REFERENCE_HEAD@ =~= head + BERTRAND_MARKER@);
    assert(REFERENCE_MID@ =~= mid + CARTEL_MARKER@);
    let pre = talk_before_reference(b);
    let p = communication_prompt_text(b);
    let tail = p.skip((pre + reference_line(b.p_bertrand@, b.p_cartel@)).len() as int);
    assert(p =~= pre + reference_line(b.p_bertrand@, b.p_cartel@) + tail);
    lemma_talk_before_reference_lacks(b, ')');
    lemma_talk_before_reference_lacks(b, '/');
    // The Bertrand price.
    let post_b = REFERENCE_MID@ + b.p_cartel@ + PARAGRAPH_END@ + tail;
    assert(p =~= (pre + head) + BERTRAND_MARKER@ + b.p_bertrand@ + post_b);
    assert(lacks(pre + head, ')'));
    lemma_read_after(pre + head, BERTRAND_MARKER@, b.p_bertrand@, post_b, ')', 8);
    // The cartel price.
    let post_c = PARAGRAPH_END@ + tail;
    let pre_c = pre + REFERENCE_HEAD@ + b.p_bertrand@ + mid;
    assert(p =~= pre_c + CARTEL_MARKER@ + b.p_cartel@ + post_c);
    assert(lacks(pre_c, '/'));
    lemma_read_after(pre_c, CARTEL_MARKER@, b.p_cartel@, post_c, '/', 8);
}

// ---------------------------------------------------------------------------
// Reading the last own price back
// ---------------------------------------------------------------------------

/// `"your price "` starts at position `j` of `s`.
pub open spec fn your_price_at(s: Seq<char>, j: int) -> bool {
    &&& s[j] == 'y'
    &&& s[j + 1] == 'o'
    &&& s[j + 2] == 'u'
    &&& s[j + 3] == 'r'
    &&& s[j + 4] == ' '
    &&& s[j + 5] == 'p'
    &&& s[j + 6] == 'r'
    &&& s[j + 7] == 'i'
    &&& s[j + 8] == 'c'
    &&& s[j + 9] == 'e'
    &&& s[j + 10] == ' '
}

/// `"your price "` occurs nowhere in `s`.
pub open spec fn no_your_price(s: Seq<char>) -> bool {
    forall|j: int| 0 <= j && j + 11 <= s.len() ==> !#[trigger] your_price_at(s, j)
}

/// The digits and points of `s` are all it holds.
pub open spec fn digits_dots(s: Seq<char>) -> bool {
    forall|i: int| 0 <= i < s.len() ==> is_digit(#[trigger] s[i]) || s[i] == '.'
}

proof fn lemma_no_your_price_around_numeral(a: Seq<char>, n: Seq<char>, c: Seq<char>)
    requires
        no_your_price(a),
        no_your_price(c),
        n.len() > 0,
        digits_dots(n),
    ensures
        no_your_price(a + n + c),
{
    let s = a + n + c;
    assert forall|j: int| 0 <= j && j + 11 <= s.len() implies !#[trigger] your_price_at(s, j) by {
        let la = a.len() as int;
        let ln = n.len() as int;
        if j < la {
            if j + 11 <= la {
                assert(your_price_at(s, j) ==> your_price_at(a, j));
            } else {
                assert(s[la] == n[0]);
                assert(is_digit(n[0]) || n[0] == '.');
            }
        } else if j < la + ln {
            assert(s[j] == n[j - la]);
            assert(is_digit(n[j - la]) || n[j - la] == '.');
        } else {
            assert(your_price_at(s, j) ==> your_price_at(c, j - la - ln));
        }
    }
}

proof fn lemma_no_your_price_concat(a: Seq<char>, c: Seq<char>)
    requires
        no_your_price(a),
        no_your_price(c),
        a.len() > 0,
        !(a.last() == 'y' || a.last() == 'o' || a.last() == 'u' || a.last() == 'r' || a.last()
            == ' ' || a.last() == 'p' || a.last() == 'i' || a.last() == 'c' || a.last() == 'e'),
    ensures
        no_your_price(a + c),
{
    let s = a + c;
    assert forall|j: int| 0 <= j && j + 11 <= s.len() implies !#[trigger] your_price_at(s, j) by {
        let la = a.len() as int;
        if j + 11 <= la {
            assert(your_price_at(s, j) ==> your_price_at(a, j));
        } else if j < la {
            assert(s[la - 1] == a.last());
        } else {
            assert(your_price_at(s, j) ==> your_price_at(c, j - la));
        }
    }
}

/// Every field of `split_fields(s, sep)` before the last is a field of a
/// prefix of `s`, and the last field is a suffix of `s`; so a text without
/// `"your price "` splits into fields without it.
proof fn lemma_fields_lack_your_price(s: Seq<char>, sep: char)
    requires
        no_your_price(s),
    ensures
        forall|k: int|
            0 <= k < split_fields(s, sep).len() ==> no_your_price(
                #[trigger] split_fields(s, sep)[k],
            ),
        split_fields(s, sep).len() >= 1,
        split_fields(s, sep).last().len() <= s.len(),
        s.skip(s.len() - split_fields(s, sep).last().len()) == split_fields(s, sep).last(),
    decreases s.len(),
{
    lemma_split_fields_nonempty(s, sep);
    if s.len() == 0 {
        assert(split_fields(s, sep)[0] =~= Seq::<char>::empty());
        assert(s.skip(0) =~= s);
    } else {
        let p = s.drop_last();
        assert forall|j: int| 0 <= j && j + 11 <= p.len() implies !#[trigger] your_price_at(
            p,
            j,
        ) by {
            assert(your_price_at(p, j) ==> your_price_at(s, j));
        }
        lemma_fields_lack_your_price(p, sep);
        let f = split_fields(p, sep);
        let g = split_fields(s, sep);
        if s.last() == sep {
            assert forall|k: int| 0 <= k < g.len() implies no_your_price(#[trigger] g[k]) by {
                if k < f.len() {
                    assert(g[k] == f[k]);
                }
            }
            assert(s.skip(s.len() as int) =~= g.last());
        } else {
            let last = f.last().push(s.last());
            assert(g.last() == last);
            let off = s.len() - last.len();
            assert(s.skip(off) =~= last) by {
                assert(p.skip(p.len() - f.last().len()) == f.last());
                assert forall|i: int| 0 <= i < last.len() implies #[trigger] s.skip(off)[i]
                    == last[i] by {
                    if i < f.last().len() {
                        assert(p.skip(off)[i] == f.last()[i]);
                        assert(s[off + i] == p[off + i]);
                    }
                }
            }
            assert forall|j: int| 0 <= j && j + 11 <= last.len() implies !#[trigger] your_price_at(
                last,
                j,
            ) by {
                assert(your_price_at(last, j) ==> your_price_at(s, j + off));
            }
            assert forall|k: int| 0 <= k < g.len() implies no_your_price(#[trigger] g[k]) by {
                if k < f.len() - 1 {
                    assert(g[k] == f[k]);
                }
            }
        }
    }
}

proof fn lemma_no_line_price(line: Seq<char>)
    requires
        no_your_price(line),
    ensures
        line_price_text(line) is None,
{
    crate::text::lemma_find_in_bounds(line, YOUR_PRICE@, 0);
    reveal_strlit("your price ");
    if let Some(k) = find_from(line, YOUR_PRICE@, 0) {
        let w = line.subrange(k, k + 11);
        assert(w[0] == line[k] && w[1] == line[k + 1] && w[2] == line[k + 2] && w[3] == line[k + 3]
            && w[4] == line[k + 4] && w[5] == line[k + 5] && w[6] == line[k + 6] && w[7] == line[k
            + 7] && w[8] == line[k + 8] && w[9] == line[k + 9] && w[10] == line[k + 10]);
        assert(your_price_at(line, k));
    }
}

proof fn lemma_no_line_prices(fields: Seq<Seq<char>>)
    requires
        forall|k: int| 0 <= k < fields.len() ==> no_your_price(#[trigger] fields[k]),
    ensures
        line_prices(fields) == Seq::<Seq<char>>::empty(),
    decreases fields.len(),
{
    if fields.len() > 0 {
        let p = fields.drop_last();
        assert forall|k: int| 0 <= k < p.len() implies no_your_price(#[trigger] p[k]) by {
            assert(p[k] == fields[k]);
        }
        lemma_no_line_prices(p);
        lemma_no_line_price(fields.last());
    }
}

proof fn lemma_line_prices_concat(x: Seq<Seq<char>>, y: Seq<Seq<char>>)
    ensures
        line_prices(x + y) == line_prices(x) + line_prices(y),
    decreases y.len(),
{
    if y.len() == 0 {
        assert(x + y =~= x);
        assert(line_prices(x) + line_prices(y) =~= line_prices(x));
    } else {
        lemma_line_prices_concat(x, y.drop_last());
        assert((x + y).drop_last() =~= x + y.drop_last());
        assert((x + y).last() == y.last());
        match line_price_text(y.last()) {
            Some(t) => {
                assert(line_prices(x) + line_prices(y.drop_last()).push(t) =~= (line_prices(x)
                    + line_prices(y.drop_last())).push(t));
            },
            None => {},
        }
    }
}

/// A blank line quotes no price.
proof fn lemma_blank_line_prices()
    ensures
        line_prices(seq![Seq::<char>::empty()]) == Seq::<Seq<char>>::empty(),
{
    reveal_strlit("your price ");
    let one = seq![Seq::<char>::empty()];
    assert(one.drop_last() =~= Seq::<Seq<char>>::empty());
    assert(line_prices(Seq::<Seq<char>>::empty()) == Seq::<Seq<char>>::empty());
    assert(one.last() == Seq::<char>::empty());
    assert(line_price_text(Seq::<char>::empty()) is None);
}

/// Splitting at a separator that ends the first part splits the parts
/// apart.
proof fn lemma_split_concat(a: Seq<char>, b: Seq<char>, sep: char)
    requires
        a.len() > 0,
        a.last() == sep,
    ensures
        split_fields(a + b, sep) == split_fields(a, sep).drop_last() + split_fields(b, sep),
    decreases b.len(),
{
    lemma_split_fields_nonempty(a.drop_last(), sep);
    lemma_split_fields_nonempty(b, sep);
    let fa = split_fields(a, sep);
    if b.len() == 0 {
        assert(a + b =~= a);
        assert(fa.drop_last() + split_fields(b, sep) =~= fa);
    } else {
        lemma_split_concat(a, b.drop_last(), sep);
        lemma_split_fields_nonempty(b.drop_last(), sep);
        assert((a + b).drop_last() =~= a + b.drop_last());
        assert((a + b).last() == b.last());
        let x = fa.drop_last();
        let y = split_fields(b.drop_last(), sep);
        if b.last() == sep {
            assert((x + y).push(Seq::empty()) =~= x + y.push(Seq::empty()));
        } else {
            let c = b.last();
            assert((x + y).update((x + y).len() - 1, (x + y).last().push(c)) =~= x + y.update(
                y.len() - 1,
                y.last().push(c),
            ));
        }
    }
}

/// A text without the separator is one field.
proof fn lemma_split_single(x: Seq<char>, sep: char)
    requires
        lacks(x, sep),
    ensures
        split_fields(x, sep) == seq![x],
    decreases x.len(),
{
    if x.len() == 0 {
        assert(x =~= Seq::<char>::empty());
    } else {
        let p = x.drop_last();
        assert(lacks(p, sep));
        lemma_split_single(p, sep);
        assert(x.last() != sep);
        assert(p.push(x.last()) =~= x);
        assert(seq![p].update(0, x) =~= seq![x]);
    }
}

proof fn lemma_digit_dot_run_concat(n: Seq<char>, t: Seq<char>)
    requires
        digits_dots(n),
        t.len() > 0,
        !is_digit(t[0]) && t[0] != '.',
    ensures
        digit_dot_run(n + t) == n.len(),
    decreases n.len(),
{
    if n.len() == 0 {
        assert(n + t =~= t);
    } else {
        assert((n + t).drop_first() =~= n.drop_first() + t);
        assert((n + t)[0] == n[0]);
        assert(digits_dots(n.drop_first())) by {
            assert forall|i: int| 0 <= i < n.drop_first().len() implies is_digit(
                #[trigger] n.drop_first()[i],
            ) || n.drop_first()[i] == '.' by {
                assert(n.drop_first()[i] == n[i + 1]);
            }
        }
        lemma_digit_dot_run_concat(n.drop_first(), t);
    }
}

/// The text of a history line without its line end.
spec fn history_content(r: nat, e: HistoryEntry) -> Seq<char> {
    ROUND_HEAD@ + decimal(r) + PRICE_HEAD@ + e.own_price@ + QUANTITY_HEAD@ + e.own_quantity@
        + PROFIT_HEAD@ + e.own_profit@ + RIVALS_HEAD@ + join_list(texts(e.rival_prices@))
}

/// The numbers of a history entry are rendered on one line: the own price
/// as a plain numeral, the rest without line ends.
pub open spec fn one_line_entry(e: HistoryEntry) -> bool {
    &&& plain_numeral(e.own_price@)
    &&& lacks(e.own_quantity@, '\n')
    &&& lacks(e.own_profit@, '\n')
    &&& forall|k: int|
        0 <= k < e.rival_prices@.len() ==> lacks(#[trigger] e.rival_prices@[k]@, '\n')
}

proof fn lemma_join_lacks(items: Seq<Seq<char>>)
    requires
        forall|k: int| 0 <= k < items.len() ==> lacks(#[trigger] items[k], '\n'),
    ensures
        lacks(join_list(items), '\n'),
    decreases items.len(),
{
    reveal_strlit(", ");
    if items.len() > 1 {
        let p = items.drop_last();
        assert forall|k: int| 0 <= k < p.len() implies lacks(#[trigger] p[k], '\n') by {
            assert(p[k] == items[k]);
        }
        lemma_join_lacks(p);
        assert(lacks(items.last(), '\n')) by {
            assert(items.last() == items[items.len() - 1]);
        }
    } else if items.len() == 1 {
        assert(lacks(items[0], '\n'));
    }
}

proof fn lemma_history_content(r: nat, e: HistoryEntry)
    requires
        one_line_entry(e),
    ensures
        lacks(history_content(r, e), '\n'),
        line_price_text(history_content(r, e)) == Some(e.own_price@),
        history_line(r, e) == history_content(r, e) + NEWLINE@,
{
    reveal_strlit("- round ");
    reveal_strlit(": your price ");
    reveal_strlit(": ");
    reveal_strlit("your price ");
    reveal_strlit(", quantity ");
    reveal_strlit(", profit ");
    reveal_strlit("; rival price(s) ");
    lemma_decimal_digits(r);
    let rivals = texts(e.rival_prices@);
    assert forall|k: int| 0 <= k < rivals.len() implies lacks(#[trigger] rivals[k], '\n') by {
        assert(rivals[k] == e.rival_prices@[k]@);
    }
    lemma_join_lacks(rivals);
    let content = history_content(r, e);
    assert(lacks(content, '\n'));
    let pre = ROUND_HEAD@ + decimal(r) + ": "@;
    let post = QUANTITY_HEAD@ + e.own_quantity@ + PROFIT_HEAD@ + e.own_profit@ + RIVALS_HEAD@
        + join_list(rivals);
    assert(PRICE_HEAD@ =~= ": "@ + YOUR_PRICE@);
    assert(content =~= pre + YOUR_PRICE@ + e.own_price@ + post);
    let k = pre.len() as int;
    assert(content.subrange(k, k + YOUR_PRICE@.len()) =~= YOUR_PRICE@);
    assert(lacks(pre, 'y'));
    assert forall|j: int| 0 <= j < k implies content[j] != 'y' by {
        assert(content[j] == pre[j]);
    }
    lemma_first_occurrence(content, YOUR_PRICE@, k, 'y', 0, 0);
    let rest = content.skip(k + YOUR_PRICE@.len());
    assert(rest =~= e.own_price@ + post);
    assert(post[0] == ',');
    lemma_digit_dot_run_concat(e.own_price@, post);
    assert(rest.take(e.own_price@.len() as int) =~= e.own_price@);
}

/// The own prices of history entries, in order.
pub open spec fn own_price_texts(es: Seq<HistoryEntry>) -> Seq<Seq<char>> {
    es.map_values(|e: HistoryEntry| e.own_price@)
}

proof fn lemma_history_line_prices(es: Seq<HistoryEntry>, start: nat)
    requires
        forall|k: int| 0 <= k < es.len() ==> one_line_entry(#[trigger] es[k]),
    ensures
        line_prices(split_fields(history_lines(es, start), '\n')) == own_price_texts(es),
        es.len() > 0 ==> history_lines(es, start).len() > 0 && history_lines(es, start).last()
            == '\n',
    decreases es.len(),
{
    reveal_strlit("\n");
    reveal_strlit("your price ");
    lemma_blank_line_prices();
    if es.len() == 0 {
        assert(history_lines(es, start) =~= Seq::<char>::empty());
        assert(split_fields(Seq::<char>::empty(), '\n') =~= seq![Seq::<char>::empty()]);
        assert(own_price_texts(es) =~= Seq::<Seq<char>>::empty());
    } else {
        let p = es.drop_last();
        assert forall|k: int| 0 <= k < p.len() implies one_line_entry(#[trigger] p[k]) by {
            assert(p[k] == es[k]);
        }
        lemma_history_line_prices(p, start);
        let r = (start + es.len() - 1) as nat;
        let e = es.last();
        assert(one_line_entry(es[es.len() - 1]));
        lemma_history_content(r, e);
        let content = history_content(r, e);
        let rest = history_lines(p, start);
        let l = history_lines(es, start);
        assert(l == rest + (content + NEWLINE@));
        // The last line on its own.
        lemma_split_single(content, '\n');
        assert((content + NEWLINE@).drop_last() =~= content);
        assert((content + NEWLINE@).last() == '\n');
        assert(split_fields(content + NEWLINE@, '\n') =~= seq![content, Seq::<char>::empty()]);
        assert(line_price_text(Seq::<char>::empty()) is None);
        lemma_line_prices_concat(seq![content], seq![Seq::<char>::empty()]);
        assert(seq![content] + seq![Seq::<char>::empty()] =~= seq![content, Seq::<char>::empty()]);
        assert(line_prices(seq![content]) =~= seq![e.own_price@]) by {
            let one = seq![content];
            assert(one.drop_last() =~= Seq::<Seq<char>>::empty());
            assert(line_prices(Seq::<Seq<char>>::empty()) == Seq::<Seq<char>>::empty());
            assert(one.last() == content);
            assert(line_prices(one) == line_prices(one.drop_last()).push(e.own_price@));
        }
        assert(seq![e.own_price@] + Seq::<Seq<char>>::empty() =~= seq![e.own_price@]);
        assert(line_prices(split_fields(content + NEWLINE@, '\n')) =~= seq![e.own_price@]);
        assert(own_price_texts(es) =~= own_price_texts(p).push(e.own_price@));
        if p.len() == 0 {
            assert(rest =~= Seq::<char>::empty());
            assert(l =~= content + NEWLINE@);
        } else {
            lemma_split_concat(rest, content + NEWLINE@, '\n');
            let fr = split_fields(rest, '\n');
            lemma_split_fields_nonempty(rest.drop_last(), '\n');
            assert(fr.last() =~= Seq::<char>::empty());
            assert(fr.drop_last().push(fr.last()) =~= fr);
            assert(line_prices(fr) == line_prices(fr.drop_last()));
            lemma_line_prices_concat(fr.drop_last(), split_fields(content + NEWLINE@, '\n'));
        }
        assert(l.last() == '\n');
    }
}

/// The text after the history: a blank line, the reflection if any, and
/// the request for the decision.
proof fn lemma_tail_has_no_price(b: PricingBriefing)
    requires
        b.reflect && b.memory@.len() > 0 ==> plain_numeral(b.avg_price@) && plain_numeral(
            b.avg_profit@,
        ),
    ensures
        no_your_price(NEWLINE@ + reflection_section(b) + DECISION@),
{
    reveal_strlit("\n");
    reveal_strlit("## Decision\nChoose the single unit price you will set this round. It must be at least your marginal cost.\nAnswer with JSON only, e.g. {\"price\": 7.00}\n");
    reveal_strlit("## Reflection\nOver your recent history your average price was ");
    reveal_strlit(" and your average profit was ");
    reveal_strlit(". Reflect on whether your pricing strategy is working and revise it if a different price would raise your long-run profit.\n\n");
    let nl = NEWLINE@;
    let dec = DECISION@;
    assert(no_your_price(nl));
    assert(no_your_price(dec));
    if b.reflect && b.memory@.len() > 0 {
        let head = nl + REFLECTION_HEAD@;
        let tail = REFLECTION_TAIL@ + dec;
        assert(no_your_price(head));
        assert(no_your_price(REFLECTION_MID@));
        assert(no_your_price(REFLECTION_TAIL@));
        lemma_no_your_price_concat(REFLECTION_TAIL@, dec);
        lemma_no_your_price_around_numeral(REFLECTION_MID@, b.avg_profit@, tail);
        let mid = REFLECTION_MID@ + b.avg_profit@ + tail;
        lemma_no_your_price_around_numeral(head, b.avg_price@, mid);
        assert(nl + reflection_section(b) + dec =~= head + b.avg_price@ + mid);
    } else {
        assert(nl + reflection_section(b) + dec =~= nl + dec);
        lemma_no_your_price_concat(nl, dec);
    }
}

/// The scripted client reads each firm's last own price back out of its
/// pricing prompt: among the prices that follow `"your price "` on the
/// prompt's lines, the last is the own price of the most recent round in
/// the memory, whenever the history's numbers are rendered on one line
/// (own prices as plain numerals) and the reflection's averages, when
/// shown, are plain numerals.
pub proof fn lemma_last_price_read_back(b: PricingBriefing)
    requires
        b.memory@.len() > 0,
        forall|k: int| 0 <= k < b.memory@.len() ==> one_line_entry(#[trigger] b.memory@[k]),
        b.reflect ==> plain_numeral(b.avg_price@) && plain_numeral(b.avg_profit@),
    ensures
        line_prices(split_fields(pricing_prompt_text(b), '\n')).len() > 0,
        line_prices(split_fields(pricing_prompt_text(b), '\n')).last()
            == b.memory@.last().own_price@,
{
    reveal_strlit("## History (most recent rounds)\n");
    let start = crate::prompts::history_start(b.round, b.memory@.len());
    let l = history_lines(b.memory@, start);
    lemma_history_line_prices(b.memory@, start);
    let q = PRICING_GENERAL@ + pricing_rules(b) + PRICING_OBJECTIVE@ + pricing_payoffs(b)
        + persona_section(b.persona) + communication_section(b) + HISTORY_HEAD@;
    let t = NEWLINE@ + reflection_section(b) + DECISION@;
    let p = pricing_prompt_text(b);
    assert(p =~= q + (l + t));
    assert(q.last() == '\n');
    lemma_split_concat(q, l + t, '\n');
    lemma_split_concat(l, t, '\n');
    lemma_tail_has_no_price(b);
    lemma_fields_lack_your_price(t, '\n');
    lemma_no_line_prices(split_fields(t, '\n'));
    let fq = split_fields(q, '\n').drop_last();
    let fl = split_fields(l, '\n');
    lemma_split_fields_nonempty(l.drop_last(), '\n');
    assert(fl.last() =~= Seq::<char>::empty());
    assert(fl.drop_last().push(fl.last()) =~= fl);
    assert(line_price_text(Seq::<char>::empty()) is None) by {
        reveal_strlit("your price ");
    }
    assert(line_prices(fl) == line_prices(fl.drop_last()));
    let ft = split_fields(t, '\n');
    assert(split_fields(p, '\n') == fq + (fl.drop_last() + ft));
    lemma_line_prices_concat(fl.drop_last(), ft);
    lemma_line_prices_concat(fq, fl.drop_last() + ft);
    let own = own_price_texts(b.memory@);
    assert(line_prices(split_fields(p, '\n')) =~= line_prices(fq) + own);
    assert(own.last() == b.memory@.last().own_price@);
}

// ---------------------------------------------------------------------------
// Telling pricing prompts from talk prompts
// ---------------------------------------------------------------------------

/// Every talk prompt asks for a message: the scripted client answers each
/// talk phase with its message, never with a price.
pub proof fn lemma_talk_prompt_asks_for_message(b: CommunicationBriefing)
    ensures
        has_infix(communication_prompt_text(b), MESSAGE_MARKER@),
{
    reveal_strlit("## Message");
    reveal_strlit("## Message\nWrite a single short message (one or two sentences) to your rival about pricing this round.\nAnswer with JSON only, e.g. {\"message\": \"Let's both hold prices high near 8 to keep margins up.\"}\n");
    let t = communication_prompt_text(b);
    let k = t.len() - MESSAGE_REQUEST@.len();
    assert(t.subrange(k, k + MESSAGE_MARKER@.len()) =~= MESSAGE_MARKER@);
}

/// `"## Message"` starts at position `j` of `s`.
pub open spec fn message_marker_at(s: Seq<char>, j: int) -> bool {
    &&& s[j] == '#'
    &&& s[j + 1] == '#'
    &&& s[j + 2] == ' '
    &&& s[j + 3] == 'M'
    &&& s[j + 4] == 'e'
    &&& s[j + 5] == 's'
    &&& s[j + 6] == 's'
    &&& s[j + 7] == 'a'
    &&& s[j + 8] == 'g'
    &&& s[j + 9] == 'e'
}

/// `"## Message"` occurs nowhere in `s`.
pub open spec fn no_message_marker(s: Seq<char>) -> bool {
    forall|j: int| 0 <= j && j + 10 <= s.len() ==> !#[trigger] message_marker_at(s, j)
}

/// `s` does not end with a beginning of `"## Message"`, so nothing that
/// follows it can complete one.
spec fn ends_clear(s: Seq<char>) -> bool {
    s.len() > 0 ==> {
        let c = s.last();
        &&& c != '#' && c != 'M' && c != 'e' && c != 's' && c != 'a' && c != 'g'
        &&& c == ' ' && s.len() >= 2 ==> s[s.len() - 2] != '#'
    }
}

/// A text without `#` cannot hold `"## Message"`, nor begin one that the
/// text after it completes; a text that ends clear of it cannot either.
proof fn lemma_marker_concat(a: Seq<char>, b: Seq<char>)
    requires
        no_message_marker(b),
        lacks(a, '#') || (no_message_marker(a) && ends_clear(a)),
    ensures
        no_message_marker(a + b),
{
    let s = a + b;
    let la = a.len() as int;
    assert forall|j: int| 0 <= j && j + 10 <= s.len() implies !#[trigger] message_marker_at(
        s,
        j,
    ) by {
        if message_marker_at(s, j) {
            if j < la {
                assert(s[j] == a[j]);
                if j + 10 <= la {
                    assert(message_marker_at(a, j));
                } else {
                    assert(s[la - 1] == a.last());
                    if la >= 2 && j <= la - 2 {
                        assert(s[la - 2] == a[la - 2]);
                    }
                }
            } else {
                assert(message_marker_at(b, j - la));
            }
        }
    }
}

/// Every text of `trimmed_nonblank(ms)` lacks `c` when every text of `ms`
/// does.
proof fn lemma_trimmed_nonblank_lacks(ms: Seq<Seq<char>>, c: char)
    requires
        forall|k: int| 0 <= k < ms.len() ==> lacks(#[trigger] ms[k], c),
    ensures
        forall|i: int|
            0 <= i < trimmed_nonblank(ms).len() ==> lacks(#[trigger] trimmed_nonblank(ms)[i], c),
    decreases ms.len(),
{
    if ms.len() > 0 {
        let p = ms.drop_last();
        assert forall|k: int| 0 <= k < p.len() implies lacks(#[trigger] p[k], c) by {
            assert(p[k] == ms[k]);
        }
        lemma_trimmed_nonblank_lacks(p, c);
        let last = ms.last();
        assert(lacks(last, c)) by {
            assert(last == ms[ms.len() - 1]);
        }
        crate::text::lemma_trim_keeps_chars(last);
        let t = trim(last);
        assert(lacks(t, c)) by {
            assert forall|i: int| 0 <= i < t.len() implies t[i] != c by {
                let k = choose|k: int| 0 <= k < last.len() && last[k] == #[trigger] t[i];
                assert(last[k] != c);
            }
        }
        let rest = trimmed_nonblank(p);
        let r = trimmed_nonblank(ms);
        assert forall|i: int| 0 <= i < r.len() implies lacks(#[trigger] r[i], c) by {
            if i < rest.len() {
                assert(r[i] == rest[i]);
            } else {
                assert(r[i] == t);
            }
        }
    }
}

/// A decimal numeral holds no `#`.
proof fn lemma_decimal_lacks_hash(n: nat)
    ensures
        lacks(decimal(n), '#'),
{
    lemma_decimal_digits(n);
}

/// The numbers of a history entry are rendered without `#`.
pub open spec fn hash_free_entry(e: HistoryEntry) -> bool {
    &&& lacks(e.own_price@, '#')
    &&& lacks(e.own_quantity@, '#')
    &&& lacks(e.own_profit@, '#')
    &&& forall|k: int|
        0 <= k < e.rival_prices@.len() ==> lacks(#[trigger] e.rival_prices@[k]@, '#')
}

/// The numbers of a briefing are rendered without `#`, and no rival message
/// holds one.
pub open spec fn hash_free_briefing(b: PricingBriefing) -> bool {
    &&& lacks(b.cost@, '#')
    &&& lacks(b.p_bertrand@, '#')
    &&& lacks(b.p_cartel@, '#')
    &&& lacks(b.avg_price@, '#')
    &&& lacks(b.avg_profit@, '#')
    &&& forall|k: int| 0 <= k < b.memory@.len() ==> hash_free_entry(#[trigger] b.memory@[k])
    &&& forall|k: int|
        0 <= k < b.rival_messages@.len() ==> lacks(#[trigger] b.rival_messages@[k]@, '#')
}

proof fn lemma_marker_join(items: Seq<Seq<char>>, t: Seq<char>)
    requires
        no_message_marker(t),
        forall|k: int| 0 <= k < items.len() ==> lacks(#[trigger] items[k], '#'),
    ensures
        no_message_marker(join_list(items) + t),
    decreases items.len(),
{
    reveal_strlit(", ");
    if items.len() == 0 {
        assert(join_list(items) + t =~= t);
    } else if items.len() == 1 {
        lemma_marker_concat(items[0], t);
    } else {
        let p = items.drop_last();
        assert forall|k: int| 0 <= k < p.len() implies lacks(#[trigger] p[k], '#') by {
            assert(p[k] == items[k]);
        }
        assert(lacks(items.last(), '#')) by {
            assert(items.last() == items[items.len() - 1]);
        }
        lemma_marker_concat(items.last(), t);
        lemma_marker_concat(LIST_SEP@, items.last() + t);
        lemma_marker_join(p, LIST_SEP@ + (items.last() + t));
        assert(join_list(items) + t =~= join_list(p) + (LIST_SEP@ + (items.last() + t)));
    }
}

proof fn lemma_marker_history_line(r: nat, e: HistoryEntry, t: Seq<char>)
    requires
        no_message_marker(t),
        hash_free_entry(e),
    ensures
        no_message_marker(history_line(r, e) + t),
{
    reveal_strlit("- round ");
    reveal_strlit(": your price ");
    reveal_strlit(", quantity ");
    reveal_strlit(", profit ");
    reveal_strlit("; rival price(s) ");
    reveal_strlit("\n");
    let rivals = texts(e.rival_prices@);
    assert forall|k: int| 0 <= k < rivals.len() implies lacks(#[trigger] rivals[k], '#') by {
        assert(rivals[k] == e.rival_prices@[k]@);
    }
    lemma_decimal_lacks_hash(r);
    let t1 = NEWLINE@ + t;
    lemma_marker_concat(NEWLINE@, t);
    lemma_marker_join(rivals, t1);
    let t2 = join_list(rivals) + t1;
    lemma_marker_concat(RIVALS_HEAD@, t2);
    let t3 = RIVALS_HEAD@ + t2;
    lemma_marker_concat(e.own_profit@, t3);
    lemma_marker_concat(PROFIT_HEAD@, e.own_profit@ + t3);
    let t4 = PROFIT_HEAD@ + (e.own_profit@ + t3);
    lemma_marker_concat(e.own_quantity@, t4);
    lemma_marker_concat(QUANTITY_HEAD@, e.own_quantity@ + t4);
    let t5 = QUANTITY_HEAD@ + (e.own_quantity@ + t4);
    lemma_marker_concat(e.own_price@, t5);
    lemma_marker_concat(PRICE_HEAD@, e.own_price@ + t5);
    let t6 = PRICE_HEAD@ + (e.own_price@ + t5);
    lemma_marker_concat(decimal(r), t6);
    lemma_marker_concat(ROUND_HEAD@, decimal(r) + t6);
    assert(history_line(r, e) + t =~= ROUND_HEAD@ + (decimal(r) + t6));
}

proof fn lemma_marker_history_lines(es: Seq<HistoryEntry>, start: nat, t: Seq<char>)
    requires
        no_message_marker(t),
        forall|k: int| 0 <= k < es.len() ==> hash_free_entry(#[trigger] es[k]),
    ensures
        no_message_marker(history_lines(es, start) + t),
    decreases es.len(),
{
    if es.len() == 0 {
        assert(history_lines(es, start) + t =~= t);
    } else {
        let p = es.drop_last();
        assert forall|k: int| 0 <= k < p.len() implies hash_free_entry(#[trigger] p[k]) by {
            assert(p[k] == es[k]);
        }
        assert(hash_free_entry(es[es.len() - 1]));
        let line = history_line((start + es.len() - 1) as nat, es.last());
        lemma_marker_history_line((start + es.len() - 1) as nat, es.last(), t);
        lemma_marker_history_lines(p, start, line + t);
        assert(history_lines(es, start) + t =~= history_lines(p, start) + (line + t));
    }
}

proof fn lemma_marker_message_lines(ms: Seq<Seq<char>>, t: Seq<char>)
    requires
        no_message_marker(t),
        forall|k: int| 0 <= k < ms.len() ==> lacks(#[trigger] ms[k], '#'),
    ensures
        no_message_marker(message_lines(ms) + t),
    decreases ms.len(),
{
    reveal_strlit("- rival ");
    reveal_strlit(": \"");
    reveal_strlit("\"\n");
    if ms.len() == 0 {
        assert(message_lines(ms) + t =~= t);
    } else {
        let p = ms.drop_last();
        assert forall|k: int| 0 <= k < p.len() implies lacks(#[trigger] p[k], '#') by {
            assert(p[k] == ms[k]);
        }
        assert(lacks(ms.last(), '#')) by {
            assert(ms.last() == ms[ms.len() - 1]);
        }
        let n = (ms.len() - 1) as nat;
        lemma_decimal_lacks_hash(n);
        lemma_marker_concat(RIVAL_TAIL@, t);
        lemma_marker_concat(ms.last(), RIVAL_TAIL@ + t);
        let t1 = ms.last() + (RIVAL_TAIL@ + t);
        lemma_marker_concat(RIVAL_MID@, t1);
        lemma_marker_concat(decimal(n), RIVAL_MID@ + t1);
        let t2 = RIVAL_HEAD@ + (decimal(n) + (RIVAL_MID@ + t1));
        lemma_marker_concat(RIVAL_HEAD@, decimal(n) + (RIVAL_MID@ + t1));
        lemma_marker_message_lines(p, t2);
        assert(message_lines(ms) + t =~= message_lines(p) + t2);
    }
}


/// The headings of the pricing prompt hold no `"## Message"` and end clear
/// of one.
proof fn lemma_general_clear()
    ensures
        no_message_marker(PRICING_GENERAL@) && ends_clear(PRICING_GENERAL@),
{
    reveal_strlit("## General Information\nYou are the manager of a firm selling a differentiated product in a market with a rival firm. Each round, both firms simultaneously set a unit price; the market then clears and each firm earns a profit. Higher prices raise your margin but can lose demand to your rival; lower prices win demand but cut your margin.\n\n");
}

proof fn lemma_rules_head_clear()
    ensures
        no_message_marker(RULES_HEAD@) && ends_clear(RULES_HEAD@),
{
    reveal_strlit("## Round Rules\n- This is round ");
}

proof fn lemma_objective_clear()
    ensures
        no_message_marker(PRICING_OBJECTIVE@) && ends_clear(PRICING_OBJECTIVE@),
{
    reveal_strlit("## Objective\nMaximize your firm's cumulative profit over the long run. Think strategically about how your rival is likely to respond to your price.\n\n");
}

proof fn lemma_payoffs_clear()
    ensures
        no_message_marker(PAYOFFS@) && ends_clear(PAYOFFS@),
{
    reveal_strlit("## Payoffs\nYour profit each round is (your price - your cost) * your quantity sold. Your quantity falls as you raise your own price and rises as your rival raises theirs.\n");
}

proof fn lemma_short_headings_clear()
    ensures
        no_message_marker(PERSONA_HEAD@) && ends_clear(PERSONA_HEAD@),
        no_message_marker(TALK_HEAD@) && ends_clear(TALK_HEAD@),
{
    reveal_strlit("## Persona\n");
    reveal_strlit("## Communication (messages from your rival this round)\n");
}

proof fn lemma_history_headings_clear()
    ensures
        no_message_marker(FIRST_ROUND@) && ends_clear(FIRST_ROUND@),
        no_message_marker(HISTORY_HEAD@) && ends_clear(HISTORY_HEAD@),
        no_message_marker(REFLECTION_HEAD@) && ends_clear(REFLECTION_HEAD@),
{
    reveal_strlit("## History\nThis is the first round; there is no history yet.\n\n");
    reveal_strlit("## History (most recent rounds)\n");
    reveal_strlit("## Reflection\nOver your recent history your average price was ");
}

proof fn lemma_decision_clear()
    ensures
        no_message_marker(DECISION@),
{
    reveal_strlit("## Decision\nChoose the single unit price you will set this round. It must be at least your marginal cost.\nAnswer with JSON only, e.g. {\"price\": 7.00}\n");
}


/// The rest of the fixed text of the pricing prompt holds no `#`.
proof fn lemma_rule_text_lacks_hash()
    ensures
        lacks(LINE_END@, '#'),
        lacks(SIMULTANEOUS_RULE@, '#'),
        lacks(COST_HEAD@, '#'),
        lacks(COST_TAIL@, '#'),
        lacks(TALK_RULE@, '#'),
        lacks(NO_TALK_RULE@, '#'),
{
    reveal_strlit(".\n");
    reveal_strlit("- You and your rival set prices at the same time (you cannot see this round's rival price before deciding).\n");
    reveal_strlit("- Your marginal cost is ");
    reveal_strlit(" per unit.\n");
    reveal_strlit("- You may have communicated with your rival this round; honour any understanding you reached.\n");
    reveal_strlit("- There is no communication with your rival.\n");
}

proof fn lemma_other_text_lacks_hash()
    ensures
        lacks(NEWLINE@, '#'),
        lacks(BLANK_LINE@, '#'),
        lacks(PARAGRAPH_END@, '#'),
        lacks(REFERENCE_HEAD@, '#'),
        lacks(REFERENCE_MID@, '#'),
        lacks(TALK_FOOT@, '#'),
        lacks(REFLECTION_MID@, '#'),
        lacks(REFLECTION_TAIL@, '#'),
{
    reveal_strlit("\n");
    reveal_strlit("\n\n");
    reveal_strlit(".\n\n");
    reveal_strlit("- For reference, the competitive (Bertrand) price is around ");
    reveal_strlit(" and the fully collusive (monopoly/cartel) price is around ");
    reveal_strlit("Take these messages into account, but remember the rival cannot bind you and may act in their own interest.\n\n");
    reveal_strlit(" and your average profit was ");
    reveal_strlit(". Reflect on whether your pricing strategy is working and revise it if a different price would raise your long-run profit.\n\n");
}

/// The persona instructions hold no `#`.
proof fn lemma_directives_lack_hash(p: Persona)
    ensures
        lacks(directive_of(p), '#'),
{
    reveal_strlit("You are an active, profit-seeking manager. You proactively look for opportunities to raise margins, but you remain pragmatic and responsive to your rival's moves.");
    reveal_strlit("You are an aggressive, combative manager. You are willing to start a price war to win market share and you do not shy away from undercutting your rival.");
    reveal_strlit("");
}

proof fn lemma_marker_reflection(b: PricingBriefing, t: Seq<char>)
    requires
        no_message_marker(t),
        hash_free_briefing(b),
    ensures
        no_message_marker(reflection_section(b) + t),
{
    if b.reflect && b.memory@.len() > 0 {
        lemma_history_headings_clear();
        lemma_other_text_lacks_hash();
        lemma_marker_concat(REFLECTION_TAIL@, t);
        lemma_marker_concat(b.avg_profit@, REFLECTION_TAIL@ + t);
        let u = REFLECTION_MID@ + (b.avg_profit@ + (REFLECTION_TAIL@ + t));
        lemma_marker_concat(REFLECTION_MID@, b.avg_profit@ + (REFLECTION_TAIL@ + t));
        lemma_marker_concat(b.avg_price@, u);
        lemma_marker_concat(REFLECTION_HEAD@, b.avg_price@ + u);
        assert(reflection_section(b) + t =~= REFLECTION_HEAD@ + (b.avg_price@ + u));
    } else {
        assert(reflection_section(b) + t =~= t);
    }
}

proof fn lemma_marker_pricing_history(b: PricingBriefing, t: Seq<char>)
    requires
        no_message_marker(t),
        hash_free_briefing(b),
    ensures
        no_message_marker(pricing_history(b) + t),
{
    lemma_history_headings_clear();
    lemma_other_text_lacks_hash();
    if b.memory@.len() == 0 {
        lemma_marker_concat(FIRST_ROUND@, t);
    } else {
        lemma_marker_concat(NEWLINE@, t);
        let start = crate::prompts::history_start(b.round, b.memory@.len());
        lemma_marker_history_lines(b.memory@, start, NEWLINE@ + t);
        lemma_marker_concat(HISTORY_HEAD@, history_lines(b.memory@, start) + (NEWLINE@ + t));
        assert(pricing_history(b) + t =~= HISTORY_HEAD@ + (history_lines(b.memory@, start) + (
        NEWLINE@ + t)));
    }
}

proof fn lemma_marker_talk(b: PricingBriefing, t: Seq<char>)
    requires
        no_message_marker(t),
        hash_free_briefing(b),
    ensures
        no_message_marker(communication_section(b) + t),
{
    let ms = trimmed_nonblank(texts(b.rival_messages@));
    if b.communication && ms.len() > 0 {
        lemma_short_headings_clear();
        lemma_other_text_lacks_hash();
        let raw = texts(b.rival_messages@);
        assert forall|k: int| 0 <= k < raw.len() implies lacks(#[trigger] raw[k], '#') by {
            assert(raw[k] == b.rival_messages@[k]@);
        }
        lemma_trimmed_nonblank_lacks(raw, '#');
        lemma_marker_concat(TALK_FOOT@, t);
        lemma_marker_message_lines(ms, TALK_FOOT@ + t);
        lemma_marker_concat(TALK_HEAD@, message_lines(ms) + (TALK_FOOT@ + t));
        assert(communication_section(b) + t =~= TALK_HEAD@ + (message_lines(ms) + (TALK_FOOT@
            + t)));
    } else {
        assert(communication_section(b) + t =~= t);
    }
}

proof fn lemma_marker_persona(p: Persona, t: Seq<char>)
    requires
        no_message_marker(t),
    ensures
        no_message_marker(persona_section(p) + t),
{
    let d = directive_of(p);
    if d.len() > 0 {
        lemma_short_headings_clear();
        lemma_other_text_lacks_hash();
        lemma_directives_lack_hash(p);
        lemma_marker_concat(BLANK_LINE@, t);
        lemma_marker_concat(d, BLANK_LINE@ + t);
        lemma_marker_concat(PERSONA_HEAD@, d + (BLANK_LINE@ + t));
        assert(persona_section(p) + t =~= PERSONA_HEAD@ + (d + (BLANK_LINE@ + t)));
    } else {
        assert(persona_section(p) + t =~= t);
    }
}

proof fn lemma_marker_payoffs(b: PricingBriefing, t: Seq<char>)
    requires
        no_message_marker(t),
        hash_free_briefing(b),
    ensures
        no_message_marker(pricing_payoffs(b) + t),
{
    lemma_payoffs_clear();
    lemma_other_text_lacks_hash();
    lemma_marker_concat(PARAGRAPH_END@, t);
    lemma_marker_concat(b.p_cartel@, PARAGRAPH_END@ + t);
    let v = REFERENCE_MID@ + (b.p_cartel@ + (PARAGRAPH_END@ + t));
    lemma_marker_concat(REFERENCE_MID@, b.p_cartel@ + (PARAGRAPH_END@ + t));
    lemma_marker_concat(b.p_bertrand@, v);
    lemma_marker_concat(REFERENCE_HEAD@, b.p_bertrand@ + v);
    lemma_marker_concat(PAYOFFS@, REFERENCE_HEAD@ + (b.p_bertrand@ + v));
    assert(pricing_payoffs(b) + t =~= PAYOFFS@ + (REFERENCE_HEAD@ + (b.p_bertrand@ + v)));
}

proof fn lemma_marker_rules(b: PricingBriefing, t: Seq<char>)
    requires
        no_message_marker(t),
        hash_free_briefing(b),
    ensures
        no_message_marker(pricing_rules(b) + t),
{
    lemma_rules_head_clear();
    lemma_rule_text_lacks_hash();
    lemma_other_text_lacks_hash();
    lemma_decimal_lacks_hash(b.round as nat);
    let talk = if b.communication {
        TALK_RULE@
    } else {
        NO_TALK_RULE@
    };
    lemma_marker_concat(NEWLINE@, t);
    lemma_marker_concat(talk, NEWLINE@ + t);
    let w = talk + (NEWLINE@ + t);
    lemma_marker_concat(COST_TAIL@, w);
    lemma_marker_concat(b.cost@, COST_TAIL@ + w);
    let x = COST_HEAD@ + (b.cost@ + (COST_TAIL@ + w));
    lemma_marker_concat(COST_HEAD@, b.cost@ + (COST_TAIL@ + w));
    lemma_marker_concat(SIMULTANEOUS_RULE@, x);
    lemma_marker_concat(LINE_END@, SIMULTANEOUS_RULE@ + x);
    let y = decimal(b.round as nat) + (LINE_END@ + (SIMULTANEOUS_RULE@ + x));
    lemma_marker_concat(decimal(b.round as nat), LINE_END@ + (SIMULTANEOUS_RULE@ + x));
    lemma_marker_concat(RULES_HEAD@, y);
    lemma_regroup_rules(
        RULES_HEAD@,
        decimal(b.round as nat),
        LINE_END@,
        SIMULTANEOUS_RULE@,
        COST_HEAD@,
        b.cost@,
        COST_TAIL@,
        talk,
        NEWLINE@,
        t,
    );
}

proof fn lemma_regroup_rules(
    a: Seq<char>,
    b: Seq<char>,
    c: Seq<char>,
    d: Seq<char>,
    e: Seq<char>,
    f: Seq<char>,
    g: Seq<char>,
    h: Seq<char>,
    i: Seq<char>,
    t: Seq<char>,
)
    ensures
        (a + b + c) + d + (e + f + g) + h + i + t == a + (b + (c + (d + (e + (f + (g + (h + (i
            + t)))))))),
{
    assert((a + b + c) + d + (e + f + g) + h + i + t =~= a + (b + (c + (d + (e + (f + (g + (h
        + (i + t)))))))));
}

/// A text without `"## Message"` does not hold it.
proof fn lemma_no_marker_no_infix(p: Seq<char>)
    requires
        no_message_marker(p),
    ensures
        !has_infix(p, MESSAGE_MARKER@),
{
    reveal_strlit("## Message");
    if has_infix(p, MESSAGE_MARKER@) {
        let i = choose|i: int|
            0 <= i && i + MESSAGE_MARKER@.len() <= p.len() && #[trigger] p.subrange(
                i,
                i + MESSAGE_MARKER@.len(),
            ) == MESSAGE_MARKER@;
        let w = p.subrange(i, i + 10);
        assert(w[0] == p[i] && w[1] == p[i + 1] && w[2] == p[i + 2] && w[3] == p[i + 3] && w[4]
            == p[i + 4] && w[5] == p[i + 5] && w[6] == p[i + 6] && w[7] == p[i + 7] && w[8] == p[i
            + 8] && w[9] == p[i + 9]);
        assert(message_marker_at(p, i));
    }
}

proof fn lemma_regroup(
    a: Seq<char>,
    b: Seq<char>,
    c: Seq<char>,
    d: Seq<char>,
    e: Seq<char>,
    f: Seq<char>,
    g: Seq<char>,
    h: Seq<char>,
    i: Seq<char>,
)
    ensures
        a + b + c + d + e + f + g + h + i == a + (b + (c + (d + (e + (f + (g + (h + i))))))),
{
    assert(a + b + c + d + e + f + g + h + i =~= a + (b + (c + (d + (e + (f + (g + (h
        + i))))))));
}

/// A pricing prompt never asks for a message: the scripted client answers
/// every pricing prompt with a price, whenever the briefing's numbers are
/// rendered without `#` and no rival message holds one.
pub proof fn lemma_pricing_prompt_asks_for_price(b: PricingBriefing)
    requires
        hash_free_briefing(b),
    ensures
        !has_infix(pricing_prompt_text(b), MESSAGE_MARKER@),
{
    lemma_decision_clear();
    lemma_objective_clear();
    lemma_general_clear();
    let t0 = DECISION@;
    lemma_marker_reflection(b, t0);
    let t1 = reflection_section(b) + t0;
    lemma_marker_pricing_history(b, t1);
    let t2 = pricing_history(b) + t1;
    lemma_marker_talk(b, t2);
    let t3 = communication_section(b) + t2;
    lemma_marker_persona(b.persona, t3);
    let t4 = persona_section(b.persona) + t3;
    lemma_marker_payoffs(b, t4);
    let t5 = pricing_payoffs(b) + t4;
    lemma_marker_concat(PRICING_OBJECTIVE@, t5);
    let t6 = PRICING_OBJECTIVE@ + t5;
    lemma_marker_rules(b, t6);
    let t7 = pricing_rules(b) + t6;
    lemma_marker_concat(PRICING_GENERAL@, t7);
    lemma_regroup(
        PRICING_GENERAL@,
        pricing_rules(b),
        PRICING_OBJECTIVE@,
        pricing_payoffs(b),
        persona_section(b.persona),
        communication_section(b),
        pricing_history(b),
        reflection_section(b),
        DECISION@,
    );
    lemma_no_marker_no_infix(pricing_prompt_text(b));
}

} // verus!
