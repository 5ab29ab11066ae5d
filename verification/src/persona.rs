//! Firm personas: the instruction that steers each firm's exploration and
//! aggressiveness, with its label and parser.

use vstd::prelude::*;

use crate::text::{
    ascii_lower, ascii_lower_chars, chars_eq, chars_of, push_all, string_of, trim,
    trim_chars, trim_end, trim_start,
};

verus! {

/// A firm persona.
#[derive(Clone, Copy, Debug, PartialEq, Eq, Structural)]
pub enum Persona {
    /// Actively explores profit opportunities (the basic case).
    Active,
    /// Aggressive and combative, willing to start price wars.
    Aggressive,
    /// No persona instruction at all (label `none`).
    Neutral,
}

/// The label of a persona, as used on the command line and in records.
pub open spec fn label_of(p: Persona) -> Seq<char> {
    match p {
        Persona::Active => "active"@,
        Persona::Aggressive => "aggressive"@,
        Persona::Neutral => "none"@,
    }
}

/// The instruction that the persona adds to a prompt (empty for none).
pub open spec fn directive_of(p: Persona) -> Seq<char> {
    match p {
        Persona::Active => ACTIVE_DIRECTIVE@,
        Persona::Aggressive => AGGRESSIVE_DIRECTIVE@,
        Persona::Neutral => ""@,
    }
}

/// The persona that a normalised (trimmed, lower-cased) label names.
pub open spec fn persona_named(norm: Seq<char>) -> Option<Persona> {
    if norm == "active"@ {
        Some(Persona::Active)
    } else if norm == "aggressive"@ || norm == "aggro"@ {
        Some(Persona::Aggressive)
    } else if norm == "none"@ || norm == "neutral"@ || norm == "off"@ {
        Some(Persona::Neutral)
    } else {
        Option::None
    }
}

/// The persona that `s` names: labels are matched after trimming white
/// space and ASCII lower-casing.
pub open spec fn parse_persona_spec(s: Seq<char>) -> Option<Persona> {
    persona_named(ascii_lower(trim(s)))
}

/// The message with which an unknown label is refused.
pub open spec fn persona_error(s: Seq<char>) -> Seq<char> {
    PERSONA_ERROR_HEAD@ + s + PERSONA_ERROR_TAIL@
}

/// The instruction of the active persona.
pub const ACTIVE_DIRECTIVE: &'static str =
    "You are an active, profit-seeking manager. You proactively look for opportunities to raise margins, but you remain pragmatic and responsive to your rival's moves.";

/// The instruction of the aggressive persona.
pub const AGGRESSIVE_DIRECTIVE: &'static str =
    "You are an aggressive, combative manager. You are willing to start a price war to win market share and you do not shy away from undercutting your rival.";

/// The text before the refused label in the parse error.
pub const PERSONA_ERROR_HEAD: &'static str = "不正なペルソナ: \"";

/// The text after the refused label in the parse error.
pub const PERSONA_ERROR_TAIL: &'static str = "\" (active / aggressive / none)";

impl Persona {
    /// The instruction that this persona adds to a prompt.
    pub fn directive(&self) -> (r: &'static str)
        ensures
            r@ == directive_of(*self),
    {
        match self {
            Persona::Active => ACTIVE_DIRECTIVE,
            Persona::Aggressive => AGGRESSIVE_DIRECTIVE,
            Persona::Neutral => "",
        }
    }

    /// The label of this persona.
    pub fn label(&self) -> (r: &'static str)
        ensures
            r@ == label_of(*self),
    {
        match self {
            Persona::Active => "active",
            Persona::Aggressive => "aggressive",
            Persona::Neutral => "none",
        }
    }
}

/// Whether the characters `v` spell the literal `lit`.
fn spells(v: &Vec<char>, lit: &str) -> (r: bool)
    ensures
        r == (v@ == lit@),
{
    let l = chars_of(lit);
    chars_eq(v, &l)
}

/// Parses a persona label (`active`, `aggressive`/`aggro`,
/// `none`/`neutral`/`off`), ignoring surrounding white space and ASCII case.
pub fn parse_persona(s: &str) -> (r: Result<Persona, String>)
    ensures
        match r {
            Ok(p) => parse_persona_spec(s@) == Some(p),
            Err(e) => parse_persona_spec(s@) is None && e@ == persona_error(s@),
        },
{
    let raw = chars_of(s);
    let trimmed = trim_chars(&raw);
    let norm = ascii_lower_chars(&trimmed);
    if spells(&norm, "active") {
        Ok(Persona::Active)
    } else if spells(&norm, "aggressive") || spells(&norm, "aggro") {
        Ok(Persona::Aggressive)
    } else if spells(&norm, "none") || spells(&norm, "neutral") || spells(&norm, "off") {
        Ok(Persona::Neutral)
    } else {
        let mut msg = chars_of(PERSONA_ERROR_HEAD);
        push_all(&mut msg, &raw);
        let tail = chars_of(PERSONA_ERROR_TAIL);
        push_all(&mut msg, &tail);
        Err(string_of(&msg))
    }
}

/// A label with no white space at either end is its own trim.
proof fn lemma_trim_of_unpadded(s: Seq<char>)
    requires
        s.len() > 0,
        !crate::text::is_space(s[0]),
        !crate::text::is_space(s.last()),
    ensures
        trim(s) == s,
{
    assert(trim_start(s) == s);
    assert(trim_end(s) == s);
}

/// Every persona's label parses back to that persona.
pub proof fn lemma_label_roundtrip(p: Persona)
    ensures
        parse_persona_spec(label_of(p)) == Some(p),
{
    reveal_strlit("active");
    reveal_strlit("aggressive");
    reveal_strlit("aggro");
    reveal_strlit("none");
    let l = label_of(p);
    lemma_trim_of_unpadded(l);
    assert(ascii_lower(l) =~= l);
}

/// Parsing ignores ASCII case: a label and its lower-cased form name the
/// same persona (or are both refused).
pub proof fn lemma_parse_ignores_case(s: Seq<char>)
    ensures
        parse_persona_spec(ascii_lower(s)) == parse_persona_spec(s),
{
    crate::text::lemma_trim_lower_commute(s);
    crate::text::lemma_lower_idempotent(trim(s));
}

/// Parsing ignores white space around the label.
pub proof fn lemma_parse_ignores_padding(s: Seq<char>)
    ensures
        parse_persona_spec(trim(s)) == parse_persona_spec(s),
{
    crate::text::lemma_trim_idempotent(s);
}

} // verus!
