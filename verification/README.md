# sabm_simulation

A repeated differentiated-goods Bertrand pricing game in which each firm's
price is decided by a language model (the SABM setting of Han, Wu & Xiao,
2023). Two or more firms set prices simultaneously every round, a linear
demand clears the market, and the question is whether the firms settle above
the Bertrand equilibrium and below the cartel price without communicating.

## Layout

- `src/` — the verified library (Verus):
  - `persona` — firm personas, their labels, instructions and parser;
  - `prompts` — the exact text of the pricing and message prompts, as a
    function of the briefing (numbers arrive rendered);
  - `replies` — reading replies: the JSON object span, the first numeral,
    and the message of a reply (through `serde_json`);
  - `memory` — the bounded per-firm memory and its laws;
  - `record` — round budget, run outcome, metric names, firm unit ids, the
    firms of a run, the model gateway of an endpoint;
  - `world` — rival selection, round numbering, reflection schedule, costs;
  - `cli` — comma-separated lists;
  - `scripted` — the offline scripted client's reading of a prompt: whether
    it asks for a message, and the benchmark prices and own prices that it
    quotes;
  - `readback` — proofs that what the scripted client reads back is what the
    prompts quote, and that it tells talk prompts from pricing prompts;
  - `text` — white space, trimming, decimal numerals, and the character
    conversions.
- `app/` — the program: demand, benchmarks and metrics (floating point),
  the socsim mechanisms and driver, the model client, the runvault records
  and the command line.
- `tests/` — tests of the library.
