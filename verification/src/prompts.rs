//! The decision prompts sent to the firms' language model.
//!
//! The pricing prompt has the five sections of the paper's design (General
//! Information, Round Rules, Objective, Payoffs, Persona), then the rival's
//! cheap-talk messages when communication is on, the bounded history, a
//! reflection every reflection period, and the request for a JSON answer.
//! The communication prompt asks a firm for a short message to its rival.
//!
//! The numbers that a prompt quotes (prices, quantities, profits, averages)
//! are given already rendered, with the precision that the prompt shows them
//! at; round numbers and rival indices are rendered here.  Each prompt is a
//! pure function of its briefing, so a prompt cache keyed by the prompt text
//! replays a run exactly.

use vstd::prelude::*;

use crate::persona::{directive_of, Persona};
use crate::text::{chars_of, decimal, push_all, push_decimal, string_of, texts, trim_chars, trimmed_nonblank};

verus! {

// ---------------------------------------------------------------------------
// Briefings
// ---------------------------------------------------------------------------

/// One round of a firm's bounded memory, with its numbers rendered.
pub struct HistoryEntry {
    /// The firm's own price, to two decimals.
    pub own_price: String,
    /// The firm's own quantity, to no decimals.
    pub own_quantity: String,
    /// The firm's own profit, to no decimals.
    pub own_profit: String,
    /// The rivals' prices in firm order, each to two decimals.
    pub rival_prices: Vec<String>,
}

/// What one firm is told when it decides its price.
pub struct PricingBriefing {
    /// The firm's index.
    pub firm_id: usize,
    /// This round's number (from 0).
    pub round: u64,
    /// The firm's marginal cost, to two decimals.
    pub cost: String,
    /// The firm's persona.
    pub persona: Persona,
    /// Whether the firms may talk before pricing.
    pub communication: bool,
    /// The bounded memory, oldest round first.
    pub memory: Vec<HistoryEntry>,
    /// Whether this round carries a reflection.
    pub reflect: bool,
    /// The Bertrand equilibrium price, to two decimals.
    pub p_bertrand: String,
    /// The cartel price, to two decimals.
    pub p_cartel: String,
    /// The rivals' messages of this round, in firm order.
    pub rival_messages: Vec<String>,
    /// The firm's mean own price over its memory, to two decimals.
    pub avg_price: String,
    /// The firm's mean own profit over its memory, to no decimals.
    pub avg_profit: String,
}

/// What one firm is told when it writes its message to the rival.
pub struct CommunicationBriefing {
    /// The firm's index.
    pub firm_id: usize,
    /// This round's number (from 0).
    pub round: u64,
    /// The firm's marginal cost, to two decimals.
    pub cost: String,
    /// The firm's persona.
    pub persona: Persona,
    /// The bounded memory, oldest round first.
    pub memory: Vec<HistoryEntry>,
    /// The Bertrand equilibrium price, to two decimals.
    pub p_bertrand: String,
    /// The cartel price, to two decimals.
    pub p_cartel: String,
    /// The firm's mean own price over its memory, to two decimals.
    pub avg_price: String,
}

// ---------------------------------------------------------------------------
// Fixed text (the pieces of the prompts, in the order they appear)
// ---------------------------------------------------------------------------

pub const PRICING_GENERAL: &'static str = "## General Information\nYou are the manager of a firm selling a differentiated product in a market with a rival firm. Each round, both firms simultaneously set a unit price; the market then clears and each firm earns a profit. Higher prices raise your margin but can lose demand to your rival; lower prices win demand but cut your margin.\n\n";

pub const RULES_HEAD: &'static str = "## Round Rules\n- This is round ";

pub const LINE_END: &'static str = ".\n";

pub const SIMULTANEOUS_RULE: &'static str = "- You and your rival set prices at the same time (you cannot see this round's rival price before deciding).\n";

pub const COST_HEAD: &'static str = "- Your marginal cost is ";

pub const COST_TAIL: &'static str = " per unit.\n";

pub const TALK_RULE: &'static str = "- You may have communicated with your rival this round; honour any understanding you reached.\n";

pub const NO_TALK_RULE: &'static str = "- There is no communication with your rival.\n";

pub const NEWLINE: &'static str = "\n";

pub const PRICING_OBJECTIVE: &'static str = "## Objective\nMaximize your firm's cumulative profit over the long run. Think strategically about how your rival is likely to respond to your price.\n\n";

pub const PAYOFFS: &'static str = "## Payoffs\nYour profit each round is (your price - your cost) * your quantity sold. Your quantity falls as you raise your own price and rises as your rival raises theirs.\n";

pub const REFERENCE_HEAD: &'static str = "- For reference, the competitive (Bertrand) price is around ";

pub const REFERENCE_MID: &'static str = " and the fully collusive (monopoly/cartel) price is around ";

pub const PARAGRAPH_END: &'static str = ".\n\n";

pub const PERSONA_HEAD: &'static str = "## Persona\n";

pub const BLANK_LINE: &'static str = "\n\n";

pub const TALK_HEAD: &'static str = "## Communication (messages from your rival this round)\n";

pub const RIVAL_HEAD: &'static str = "- rival ";

pub const RIVAL_MID: &'static str = ": \"";

pub const RIVAL_TAIL: &'static str = "\"\n";

pub const TALK_FOOT: &'static str = "Take these messages into account, but remember the rival cannot bind you and may act in their own interest.\n\n";

pub const FIRST_ROUND: &'static str = "## History\nThis is the first round; there is no history yet.\n\n";

pub const HISTORY_HEAD: &'static str = "## History (most recent rounds)\n";

pub const ROUND_HEAD: &'static str = "- round ";

pub const PRICE_HEAD: &'static str = ": your price ";

pub const QUANTITY_HEAD: &'static str = ", quantity ";

pub const PROFIT_HEAD: &'static str = ", profit ";

pub const RIVALS_HEAD: &'static str = "; rival price(s) ";

pub const LIST_SEP: &'static str = ", ";

pub const REFLECTION_HEAD: &'static str = "## Reflection\nOver your recent history your average price was ";

pub const REFLECTION_MID: &'static str = " and your average profit was ";

pub const REFLECTION_TAIL: &'static str = ". Reflect on whether your pricing strategy is working and revise it if a different price would raise your long-run profit.\n\n";

pub const DECISION: &'static str = "## Decision\nChoose the single unit price you will set this round. It must be at least your marginal cost.\nAnswer with JSON only, e.g. {\"price\": 7.00}\n";

pub const TALK_GENERAL: &'static str = "## General Information\nYou manage a firm selling a differentiated product against a rival firm in a repeated pricing game. Before this round's prices are set, you may send a short message to your rival. Messages are cheap talk: they are not binding and your rival may ignore them.\n\n";

pub const TALK_OBJECTIVE: &'static str = "## Objective\nMaximize your firm's cumulative profit over the long run. You may use the message to coordinate toward higher, more profitable prices.\n\n";

pub const AVERAGE_HEAD: &'static str = "## History\nYour recent average price was ";

pub const MESSAGE_REQUEST: &'static str = "## Message\nWrite a single short message (one or two sentences) to your rival about pricing this round.\nAnswer with JSON only, e.g. {\"message\": \"Let's both hold prices high near 8 to keep margins up.\"}\n";

// ---------------------------------------------------------------------------
// The text of the prompts
// ---------------------------------------------------------------------------

/// The items of `items` separated by `", "` (`join(", ")`).
pub open spec fn join_list(items: Seq<Seq<char>>) -> Seq<char>
    decreases items.len(),
{
    if items.len() == 0 {
        Seq::empty()
    } else if items.len() == 1 {
        items[0]
    } else {
        join_list(items.drop_last()) + LIST_SEP@ + items.last()
    }
}

/// `"- This is round <round>.\n"` under the Round Rules heading.
pub open spec fn round_rule(round: u64) -> Seq<char> {
    RULES_HEAD@ + decimal(round as nat) + LINE_END@
}

/// `"- Your marginal cost is <cost> per unit.\n"`.
pub open spec fn cost_rule(cost: Seq<char>) -> Seq<char> {
    COST_HEAD@ + cost + COST_TAIL@
}

/// The line that quotes the Bertrand and cartel prices.
pub open spec fn reference_line(p_bertrand: Seq<char>, p_cartel: Seq<char>) -> Seq<char> {
    REFERENCE_HEAD@ + p_bertrand + REFERENCE_MID@ + p_cartel + PARAGRAPH_END@
}

/// The Persona section: present only when the persona has an instruction.
pub open spec fn persona_section(p: Persona) -> Seq<char> {
    if directive_of(p).len() > 0 {
        PERSONA_HEAD@ + directive_of(p) + BLANK_LINE@
    } else {
        Seq::empty()
    }
}

/// The Round Rules section of the pricing prompt.
pub open spec fn pricing_rules(b: PricingBriefing) -> Seq<char> {
    round_rule(b.round) + SIMULTANEOUS_RULE@ + cost_rule(b.cost@) + (if b.communication {
        TALK_RULE@
    } else {
        NO_TALK_RULE@
    }) + NEWLINE@
}

/// The Payoffs section of the pricing prompt.
pub open spec fn pricing_payoffs(b: PricingBriefing) -> Seq<char> {
    PAYOFFS@ + reference_line(b.p_bertrand@, b.p_cartel@)
}

/// `"- rival <k>: \"<message>\"\n"` for each shown message, numbered from 0.
pub open spec fn message_lines(ms: Seq<Seq<char>>) -> Seq<char>
    decreases ms.len(),
{
    if ms.len() == 0 {
        Seq::empty()
    } else {
        message_lines(ms.drop_last()) + RIVAL_HEAD@ + decimal((ms.len() - 1) as nat) + RIVAL_MID@
            + ms.last() + RIVAL_TAIL@
    }
}

/// The Communication section: present only when communication is on and
/// some rival message is not blank.
pub open spec fn communication_section(b: PricingBriefing) -> Seq<char> {
    let ms = trimmed_nonblank(texts(b.rival_messages@));
    if b.communication && ms.len() > 0 {
        TALK_HEAD@ + message_lines(ms) + TALK_FOOT@
    } else {
        Seq::empty()
    }
}

/// The number of the oldest remembered round: `round - memory length`,
/// floored at 0.
pub open spec fn history_start(round: u64, len: nat) -> nat {
    if round >= len {
        (round - len) as nat
    } else {
        0
    }
}

/// One history line.
pub open spec fn history_line(r: nat, e: HistoryEntry) -> Seq<char> {
    ROUND_HEAD@ + decimal(r) + PRICE_HEAD@ + e.own_price@ + QUANTITY_HEAD@ + e.own_quantity@
        + PROFIT_HEAD@ + e.own_profit@ + RIVALS_HEAD@ + join_list(texts(e.rival_prices@))
        + NEWLINE@
}

/// The history lines of `es`, numbered from `start`.
pub open spec fn history_lines(es: Seq<HistoryEntry>, start: nat) -> Seq<char>
    decreases es.len(),
{
    if es.len() == 0 {
        Seq::empty()
    } else {
        history_lines(es.drop_last(), start) + history_line(
            (start + es.len() - 1) as nat,
            es.last(),
        )
    }
}

/// The History section of the pricing prompt.
pub open spec fn pricing_history(b: PricingBriefing) -> Seq<char> {
    if b.memory@.len() == 0 {
        FIRST_ROUND@
    } else {
        HISTORY_HEAD@ + history_lines(b.memory@, history_start(b.round, b.memory@.len()))
            + NEWLINE@
    }
}

/// The Reflection section: present only on a reflection round with some
/// history.
pub open spec fn reflection_section(b: PricingBriefing) -> Seq<char> {
    if b.reflect && b.memory@.len() > 0 {
        REFLECTION_HEAD@ + b.avg_price@ + REFLECTION_MID@ + b.avg_profit@ + REFLECTION_TAIL@
    } else {
        Seq::empty()
    }
}

/// The whole pricing prompt.
pub open spec fn pricing_prompt_text(b: PricingBriefing) -> Seq<char> {
    PRICING_GENERAL@ + pricing_rules(b) + PRICING_OBJECTIVE@ + pricing_payoffs(b)
        + persona_section(b.persona) + communication_section(b) + pricing_history(b)
        + reflection_section(b) + DECISION@
}

/// The History section of the communication prompt.
pub open spec fn talk_history(b: CommunicationBriefing) -> Seq<char> {
    if b.memory@.len() == 0 {
        FIRST_ROUND@
    } else {
        AVERAGE_HEAD@ + b.avg_price@ + PARAGRAPH_END@
    }
}

/// The whole communication prompt.
pub open spec fn communication_prompt_text(b: CommunicationBriefing) -> Seq<char> {
    TALK_GENERAL@ + round_rule(b.round) + cost_rule(b.cost@) + reference_line(
        b.p_bertrand@,
        b.p_cartel@,
    ) + TALK_OBJECTIVE@ + persona_section(b.persona) + talk_history(b) + MESSAGE_REQUEST@
}

/// Without communication the rivals' messages play no part: the pricing
/// prompt is the same whatever messages the briefing carries, so the
/// no-communication game is unchanged by the communication variant.
pub proof fn lemma_messages_unused_without_communication(
    b: PricingBriefing,
    messages: Vec<String>,
)
    requires
        !b.communication,
    ensures
        pricing_prompt_text(b) == pricing_prompt_text(
            (PricingBriefing { rival_messages: messages, ..b }),
        ),
{
}

/// The history is numbered up to the previous round: when there have been
/// at least as many rounds as remembered entries, the entries are numbered
/// `round - len, ..., round - 1`, one apart; otherwise from 0.
pub proof fn lemma_history_ends_at_previous_round(round: u64, len: nat)
    requires
        0 < len,
    ensures
        len <= round ==> history_start(round, len) + len - 1 == round - 1,
        len > round ==> history_start(round, len) == 0,
{
}

/// A persona without instruction (`none`) gets no Persona section.
pub proof fn lemma_neutral_has_no_persona_section()
    ensures
        persona_section(Persona::Neutral) == Seq::<char>::empty(),
{
    reveal_strlit("");
}

// ---------------------------------------------------------------------------
// Building the prompts
// ---------------------------------------------------------------------------

/// Appends a literal.
fn push_str(out: &mut Vec<char>, s: &str)
    ensures
        final(out)@ == old(out)@ + s@,
{
    let cs = chars_of(s);
    push_all(out, &cs);
}

/// Appends a string.
fn push_string(out: &mut Vec<char>, s: &String)
    ensures
        final(out)@ == old(out)@ + s@,
{
    let cs = chars_of(s.as_str());
    push_all(out, &cs);
}

fn push_round_rule(out: &mut Vec<char>, round: u64)
    ensures
        final(out)@ == old(out)@ + round_rule(round),
{
    push_str(out, RULES_HEAD);
    push_decimal(out, round);
    push_str(out, LINE_END);
}

fn push_cost_rule(out: &mut Vec<char>, cost: &String)
    ensures
        final(out)@ == old(out)@ + cost_rule(cost@),
{
    push_str(out, COST_HEAD);
    push_string(out, cost);
    push_str(out, COST_TAIL);
}

fn push_reference_line(out: &mut Vec<char>, p_bertrand: &String, p_cartel: &String)
    ensures
        final(out)@ == old(out)@ + reference_line(p_bertrand@, p_cartel@),
{
    push_str(out, REFERENCE_HEAD);
    push_string(out, p_bertrand);
    push_str(out, REFERENCE_MID);
    push_string(out, p_cartel);
    push_str(out, PARAGRAPH_END);
}

fn push_persona_section(out: &mut Vec<char>, p: Persona)
    ensures
        final(out)@ == old(out)@ + persona_section(p),
{
    let d = chars_of(p.directive());
    if d.len() > 0 {
        push_str(out, PERSONA_HEAD);
        push_all(out, &d);
        push_str(out, BLANK_LINE);
    } else {
        assert(old(out)@ + persona_section(p) =~= old(out)@);
    }
}

fn push_list(out: &mut Vec<char>, items: &Vec<String>)
    ensures
        final(out)@ == old(out)@ + join_list(texts(items@)),
{
    let ghost base = out@;
    let ghost all = texts(items@);
    let mut k: usize = 0;
    assert(all.take(0) =~= Seq::<Seq<char>>::empty());
    while k < items.len()
        invariant
            0 <= k <= items@.len(),
            all == texts(items@),
            out@ == base + join_list(all.take(k as int)),
        decreases items@.len() - k,
    {
        let ghost before = out@;
        let ghost taken = all.take(k + 1);
        assert(taken.drop_last() =~= all.take(k as int));
        assert(taken.last() == items@[k as int]@);
        if k > 0 {
            push_str(out, LIST_SEP);
        }
        push_string(out, &items[k]);
        if k == 0 {
            assert(join_list(taken) == taken[0]);
        }
        k += 1;
    }
    assert(all.take(items@.len() as int) =~= all);
}

fn push_history_line(out: &mut Vec<char>, r: u64, e: &HistoryEntry)
    ensures
        final(out)@ == old(out)@ + history_line(r as nat, *e),
{
    push_str(out, ROUND_HEAD);
    push_decimal(out, r);
    push_str(out, PRICE_HEAD);
    push_string(out, &e.own_price);
    push_str(out, QUANTITY_HEAD);
    push_string(out, &e.own_quantity);
    push_str(out, PROFIT_HEAD);
    push_string(out, &e.own_profit);
    push_str(out, RIVALS_HEAD);
    push_list(out, &e.rival_prices);
    push_str(out, NEWLINE);
}

fn push_pricing_history(out: &mut Vec<char>, b: &PricingBriefing)
    ensures
        final(out)@ == old(out)@ + pricing_history(*b),
{
    let n = b.memory.len();
    if n == 0 {
        push_str(out, FIRST_ROUND);
        return;
    }
    let start: u64 = if b.round >= n as u64 {
        b.round - n as u64
    } else {
        0
    };
    assert(start == history_start(b.round, n as nat));
    push_str(out, HISTORY_HEAD);
    let ghost base = out@;
    let mut k: usize = 0;
    assert(b.memory@.take(0) =~= Seq::<HistoryEntry>::empty());
    while k < n
        invariant
            0 <= k <= n,
            n == b.memory@.len(),
            start == history_start(b.round, n as nat),
            out@ == base + history_lines(b.memory@.take(k as int), start as nat),
        decreases n - k,
    {
        let ghost taken = b.memory@.take(k + 1);
        assert(taken.drop_last() =~= b.memory@.take(k as int));
        assert(taken.last() == b.memory@[k as int]);
        let r: u64 = start + k as u64;
        push_history_line(out, r, &b.memory[k]);
        k += 1;
    }
    assert(b.memory@.take(n as int) =~= b.memory@);
    push_str(out, NEWLINE);
}

fn push_communication_section(out: &mut Vec<char>, b: &PricingBriefing)
    ensures
        final(out)@ == old(out)@ + communication_section(*b),
{
    let ghost all = texts(b.rival_messages@);
    let mut shown: Vec<Vec<char>> = Vec::new();
    let mut i: usize = 0;
    assert(all.take(0) =~= Seq::<Seq<char>>::empty());
    while i < b.rival_messages.len()
        invariant
            0 <= i <= b.rival_messages@.len(),
            all == texts(b.rival_messages@),
            shown@.len() == trimmed_nonblank(all.take(i as int)).len(),
            forall|j: int|
                0 <= j < shown@.len() ==> #[trigger] shown@[j]@ == trimmed_nonblank(
                    all.take(i as int),
                )[j],
        decreases b.rival_messages@.len() - i,
    {
        let ghost taken = all.take(i + 1);
        assert(taken.drop_last() =~= all.take(i as int));
        assert(taken.last() == b.rival_messages@[i as int]@);
        let m = chars_of(b.rival_messages[i].as_str());
        let t = trim_chars(&m);
        if t.len() > 0 {
            shown.push(t);
        }
        i += 1;
    }
    assert(all.take(b.rival_messages@.len() as int) =~= all);
    let ghost ms = trimmed_nonblank(all);
    if !(b.communication && shown.len() > 0) {
        assert(old(out)@ + communication_section(*b) =~= old(out)@);
        return;
    }
    push_str(out, TALK_HEAD);
    let ghost base = out@;
    let mut k: usize = 0;
    assert(ms.take(0) =~= Seq::<Seq<char>>::empty());
    while k < shown.len()
        invariant
            0 <= k <= shown@.len(),
            shown@.len() == ms.len(),
            forall|j: int| 0 <= j < shown@.len() ==> #[trigger] shown@[j]@ == ms[j],
            out@ == base + message_lines(ms.take(k as int)),
        decreases shown@.len() - k,
    {
        let ghost taken = ms.take(k + 1);
        assert(taken.drop_last() =~= ms.take(k as int));
        assert(taken.last() == shown@[k as int]@);
        push_str(out, RIVAL_HEAD);
        push_decimal(out, k as u64);
        push_str(out, RIVAL_MID);
        push_all(out, &shown[k]);
        push_str(out, RIVAL_TAIL);
        k += 1;
    }
    assert(ms.take(shown@.len() as int) =~= ms);
    push_str(out, TALK_FOOT);
}

fn push_reflection_section(out: &mut Vec<char>, b: &PricingBriefing)
    ensures
        final(out)@ == old(out)@ + reflection_section(*b),
{
    if b.reflect && b.memory.len() > 0 {
        push_str(out, REFLECTION_HEAD);
        push_string(out, &b.avg_price);
        push_str(out, REFLECTION_MID);
        push_string(out, &b.avg_profit);
        push_str(out, REFLECTION_TAIL);
    } else {
        assert(old(out)@ + reflection_section(*b) =~= old(out)@);
    }
}

/// Builds the pricing prompt of one firm.
pub fn pricing_prompt(brief: &PricingBriefing) -> (r: String)
    ensures
        r@ == pricing_prompt_text(*brief),
{
    let mut out: Vec<char> = Vec::new();
    push_str(&mut out, PRICING_GENERAL);
    push_round_rule(&mut out, brief.round);
    push_str(&mut out, SIMULTANEOUS_RULE);
    push_cost_rule(&mut out, &brief.cost);
    if brief.communication {
        push_str(&mut out, TALK_RULE);
    } else {
        push_str(&mut out, NO_TALK_RULE);
    }
    push_str(&mut out, NEWLINE);
    push_str(&mut out, PRICING_OBJECTIVE);
    push_str(&mut out, PAYOFFS);
    push_reference_line(&mut out, &brief.p_bertrand, &brief.p_cartel);
    push_persona_section(&mut out, brief.persona);
    push_communication_section(&mut out, brief);
    push_pricing_history(&mut out, brief);
    push_reflection_section(&mut out, brief);
    push_str(&mut out, DECISION);
    string_of(&out)
}

/// Builds the message prompt of one firm (communication variant).
pub fn communication_prompt(brief: &CommunicationBriefing) -> (r: String)
    ensures
        r@ == communication_prompt_text(*brief),
{
    let mut out: Vec<char> = Vec::new();
    push_str(&mut out, TALK_GENERAL);
    push_round_rule(&mut out, brief.round);
    push_cost_rule(&mut out, &brief.cost);
    push_reference_line(&mut out, &brief.p_bertrand, &brief.p_cartel);
    push_str(&mut out, TALK_OBJECTIVE);
    push_persona_section(&mut out, brief.persona);
    if brief.memory.len() == 0 {
        push_str(&mut out, FIRST_ROUND);
    } else {
        push_str(&mut out, AVERAGE_HEAD);
        push_string(&mut out, &brief.avg_price);
        push_str(&mut out, PARAGRAPH_END);
    }
    push_str(&mut out, MESSAGE_REQUEST);
    string_of(&out)
}

} // verus!
