use sabm_simulation::persona::Persona;
use sabm_simulation::prompts::{
    communication_prompt, pricing_prompt, CommunicationBriefing, HistoryEntry, PricingBriefing,
};

fn entry(price: &str, quantity: &str, profit: &str, rivals: &[&str]) -> HistoryEntry {
    HistoryEntry {
        own_price: price.to_string(),
        own_quantity: quantity.to_string(),
        own_profit: profit.to_string(),
        rival_prices: rivals.iter().map(|s| s.to_string()).collect(),
    }
}

fn briefing(round: u64, persona: Persona, communication: bool) -> PricingBriefing {
    PricingBriefing {
        firm_id: 0,
        round,
        cost: "2.00".to_string(),
        persona,
        communication,
        memory: Vec::new(),
        reflect: false,
        p_bertrand: "6.00".to_string(),
        p_cartel: "8.00".to_string(),
        rival_messages: Vec::new(),
        avg_price: String::new(),
        avg_profit: String::new(),
    }
}

#[test]
fn prompt_contains_sections_and_history() {
    let mem = vec![entry("6.00", "800", "3200", &["6.00"])];
    let brief = PricingBriefing {
        memory: mem,
        avg_price: "6.00".to_string(),
        avg_profit: "3200".to_string(),
        ..briefing(1, Persona::Active, false)
    };
    let p = pricing_prompt(&brief);
    assert!(p.contains("General Information"));
    assert!(p.contains("Round Rules"));
    assert!(p.contains("Objective"));
    assert!(p.contains("Payoffs"));
    assert!(p.contains("Persona"));
    assert!(p.contains("round 0:"), "history line present: {p}");
    assert!(p.contains("\"price\""));
}

#[test]
fn no_persona_omits_section() {
    let brief = briefing(0, Persona::Neutral, false);
    let p = pricing_prompt(&brief);
    assert!(!p.contains("## Persona"));
}

#[test]
fn communication_section_injected_only_when_enabled() {
    let rivals = vec!["Let's hold prices high near 8.".to_string()];
    let with_comm = PricingBriefing {
        rival_messages: rivals,
        ..briefing(2, Persona::Active, true)
    };
    let p = pricing_prompt(&with_comm);
    assert!(p.contains("## Communication"), "comm section present: {p}");
    assert!(p.contains("hold prices high"));
    let no_comm = PricingBriefing {
        communication: false,
        ..with_comm
    };
    let p2 = pricing_prompt(&no_comm);
    assert!(!p2.contains("## Communication"));
}

#[test]
fn communication_prompt_has_message_section() {
    let brief = CommunicationBriefing {
        firm_id: 0,
        round: 1,
        cost: "2.00".to_string(),
        persona: Persona::Active,
        memory: Vec::new(),
        p_bertrand: "6.00".to_string(),
        p_cartel: "8.00".to_string(),
        avg_price: String::new(),
    };
    let p = communication_prompt(&brief);
    assert!(p.contains("## Message"));
    assert!(p.contains("\"message\""));
}

#[test]
fn first_round_pricing_prompt_is_exact() {
    let p = pricing_prompt(&briefing(0, Persona::Neutral, false));
    let expected = "## General Information\n\
        You are the manager of a firm selling a differentiated product in a market with a \
        rival firm. Each round, both firms simultaneously set a unit price; the market then \
        clears and each firm earns a profit. Higher prices raise your margin but can lose \
        demand to your rival; lower prices win demand but cut your margin.\n\n\
        ## Round Rules\n\
        - This is round 0.\n\
        - You and your rival set prices at the same time (you cannot see this round's rival price before deciding).\n\
        - Your marginal cost is 2.00 per unit.\n\
        - There is no communication with your rival.\n\n\
        ## Objective\n\
        Maximize your firm's cumulative profit over the long run. Think strategically about \
        how your rival is likely to respond to your price.\n\n\
        ## Payoffs\n\
        Your profit each round is (your price - your cost) * your quantity sold. Your quantity \
        falls as you raise your own price and rises as your rival raises theirs.\n\
        - For reference, the competitive (Bertrand) price is around 6.00 and the fully \
        collusive (monopoly/cartel) price is around 8.00.\n\n\
        ## History\nThis is the first round; there is no history yet.\n\n\
        ## Decision\n\
        Choose the single unit price you will set this round. It must be at least your \
        marginal cost.\n\
        Answer with JSON only, e.g. {\"price\": 7.00}\n";
    assert_eq!(p, expected);
}

#[test]
fn history_lines_are_numbered_up_to_the_previous_round() {
    let brief = PricingBriefing {
        memory: vec![
            entry("6.10", "780", "3198", &["6.20"]),
            entry("6.30", "770", "3311", &["6.40", "6.50"]),
        ],
        ..briefing(12, Persona::Neutral, false)
    };
    let p = pricing_prompt(&brief);
    assert!(p.contains("## History (most recent rounds)\n- round 10: your price 6.10, quantity 780, profit 3198; rival price(s) 6.20\n- round 11: your price 6.30, quantity 770, profit 3311; rival price(s) 6.40, 6.50\n\n## Decision"));
    // Fewer rounds than remembered entries: numbering starts at 0.
    let early = PricingBriefing {
        memory: vec![entry("6.00", "800", "3200", &[]), entry("6.00", "800", "3200", &[])],
        ..briefing(1, Persona::Neutral, false)
    };
    let p = pricing_prompt(&early);
    assert!(p.contains("- round 0: your price 6.00, quantity 800, profit 3200; rival price(s) \n- round 1:"));
}

#[test]
fn reflection_only_with_history() {
    let with = PricingBriefing {
        memory: vec![entry("7.00", "700", "3500", &["7.00"])],
        reflect: true,
        avg_price: "7.00".to_string(),
        avg_profit: "3500".to_string(),
        ..briefing(20, Persona::Active, false)
    };
    let p = pricing_prompt(&with);
    assert!(p.contains("## Reflection\nOver your recent history your average price was 7.00 and your average profit was 3500."));
    let without = PricingBriefing {
        reflect: true,
        ..briefing(20, Persona::Active, false)
    };
    assert!(!pricing_prompt(&without).contains("## Reflection"));
}

#[test]
fn blank_rival_messages_are_dropped_and_numbered() {
    let brief = PricingBriefing {
        rival_messages: vec!["  ".to_string(), "  hold 8 ".to_string(), "go low".to_string()],
        ..briefing(3, Persona::Neutral, true)
    };
    let p = pricing_prompt(&brief);
    assert!(p.contains("## Communication (messages from your rival this round)\n- rival 0: \"hold 8\"\n- rival 1: \"go low\"\nTake these messages"));
    assert!(p.contains("honour any understanding"));
    let blank = PricingBriefing {
        rival_messages: vec![" ".to_string()],
        ..briefing(3, Persona::Neutral, true)
    };
    assert!(!pricing_prompt(&blank).contains("## Communication"));
}

#[test]
fn communication_prompt_quotes_average_price() {
    let brief = CommunicationBriefing {
        firm_id: 1,
        round: 5,
        cost: "5.00".to_string(),
        persona: Persona::Aggressive,
        memory: vec![entry("7.00", "700", "1400", &["6.00"])],
        p_bertrand: "6.50".to_string(),
        p_cartel: "9.50".to_string(),
        avg_price: "7.00".to_string(),
    };
    let p = communication_prompt(&brief);
    assert!(p.contains("- This is round 5.\n- Your marginal cost is 5.00 per unit.\n"));
    assert!(p.contains("## History\nYour recent average price was 7.00.\n\n## Message"));
    assert!(p.contains("## Persona\nYou are an aggressive"));
}
