# oasis_simulation

An agent-based social-media simulation in the style of OASIS (Yang et al.,
2024): agents on a follow graph choose actions each step, a recommender
builds their feeds, posts cascade through reposts, and population metrics
are recorded. Opinion leaders decide with a language model; everyone else
follows a simple stochastic policy.

The library in `src/` holds the rules, each with a contract proved by
Verus:

- `config`, `experiment` — platform and recommender spellings, comma lists,
  the sizes and readings of a reproduction;
- `parse`, `prompts`, `reproduce_mock` — the action prompt, the reply
  parser and the scripted leader used offline;
- `recsys`, `rank` — feed construction by top-k selection;
- `mechanisms` — information propagation over the post store, the
  language-model budget, memory and convergence;
- `metrics` — cascade sizes and breadth, propagation reach;
- `world`, `simulation`, `record` — posts, the bag-of-words embedding, seed
  posts, leader choice, label hashes for derived seeds.

`app/` is the `oasis` command: it runs the socsim engine, draws the
randomness, keeps the real-valued opinions and writes runs with runvault,
calling the library for every rule.
