use sabm_simulation::persona::Persona;
use sabm_simulation::prompts::{
    communication_prompt, pricing_prompt, CommunicationBriefing, HistoryEntry, PricingBriefing,
};
use sabm_simulation::scripted::{
    asks_for_message, number_after_token, price_candidates, BERTRAND_MARKER, CARTEL_MARKER,
    SCRIPTED_MESSAGE_REPLY,
};
use sabm_simulation::replies::parse_message;

fn base_briefing() -> PricingBriefing {
    PricingBriefing {
        firm_id: 0,
        round: 0,
        cost: "2.00".to_string(),
        persona: Persona::Neutral,
        communication: false,
        memory: Vec::new(),
        reflect: false,
        p_bertrand: "6.75".to_string(),
        p_cartel: "9.50".to_string(),
        rival_messages: Vec::new(),
        avg_price: String::new(),
        avg_profit: String::new(),
    }
}

fn prompt_with_history() -> String {
    let entry = |p: &str| HistoryEntry {
        own_price: p.to_string(),
        own_quantity: "800".to_string(),
        own_profit: "3200".to_string(),
        rival_prices: vec!["6.00".to_string()],
    };
    pricing_prompt(&PricingBriefing {
        firm_id: 1,
        round: 7,
        cost: "5.00".to_string(),
        persona: Persona::Active,
        communication: false,
        memory: vec![entry("6.50"), entry("6.75")],
        reflect: false,
        p_bertrand: "6.75".to_string(),
        p_cartel: "9.50".to_string(),
        rival_messages: Vec::new(),
        avg_price: "6.62".to_string(),
        avg_profit: "3200".to_string(),
    })
}

#[test]
fn benchmark_prices_read_back_from_the_prompt() {
    let p = prompt_with_history();
    assert_eq!(
        number_after_token(&p, BERTRAND_MARKER).as_deref(),
        Some("6.75")
    );
    assert_eq!(
        number_after_token(&p, CARTEL_MARKER).as_deref(),
        Some("9.50")
    );
    assert_eq!(number_after_token(&p, "no such marker"), None);
}

#[test]
fn integer_cartel_price_read_back() {
    let p = pricing_prompt(&PricingBriefing {
        p_cartel: "8".to_string(),
        ..base_briefing()
    });
    assert_eq!(number_after_token(&p, CARTEL_MARKER).as_deref(), Some("8"));
    assert_eq!(number_after_token(&p, BERTRAND_MARKER).as_deref(), Some("6.75"));
}

#[test]
fn number_after_marker_edge_cases() {
    assert_eq!(number_after_token("x = 8.", "x =").as_deref(), Some("8"));
    assert_eq!(number_after_token("x =   12.5.6", "x =").as_deref(), Some("12.5"));
    assert_eq!(number_after_token("x = none", "x =").as_deref(), Some(""));
    assert_eq!(number_after_token("x = .5", "x =").as_deref(), Some(".5"));
}

#[test]
fn own_prices_of_the_history() {
    let p = prompt_with_history();
    // The Payoffs line says "(your price - your cost)": an empty text, which
    // the client skips because it is not a number.
    assert_eq!(price_candidates(&p), vec!["", "6.50", "6.75"]);
    assert_eq!(price_candidates("your price 7.0\r\nyour price 1.2.3\nnothing"), vec!["7.0", "1.2.3"]);
    assert_eq!(price_candidates(""), Vec::<String>::new());
}

#[test]
fn talk_prompts_ask_for_a_message_and_pricing_prompts_do_not() {
    let talk = communication_prompt(&CommunicationBriefing {
        firm_id: 1,
        round: 3,
        cost: "2.00".to_string(),
        persona: Persona::Aggressive,
        memory: vec![HistoryEntry {
            own_price: "7.00".to_string(),
            own_quantity: "500".to_string(),
            own_profit: "2500".to_string(),
            rival_prices: vec!["7.50".to_string()],
        }],
        p_bertrand: "6.00".to_string(),
        p_cartel: "8.00".to_string(),
        avg_price: "7.00".to_string(),
    });
    assert!(asks_for_message(&talk));
    assert!(!asks_for_message(&prompt_with_history()));
    assert!(!asks_for_message(&pricing_prompt(&PricingBriefing {
        communication: true,
        rival_messages: vec!["let us hold at 8".to_string()],
        ..base_briefing()
    })));
    assert!(asks_for_message("## Message"));
    assert!(!asks_for_message("## Messag"));
    assert!(!asks_for_message(""));
}

#[test]
fn scripted_message_reply_parses_as_a_message() {
    assert_eq!(
        parse_message(SCRIPTED_MESSAGE_REPLY).as_deref(),
        Some("Let's both hold prices high to keep margins up.")
    );
}
