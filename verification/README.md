# bbcode

A BbCode tokenizer whose behaviour is stated and proved with Verus.

- `src/bbcode2/mod.rs`: the `Instruction`s a tokenizer emits, their values (`Token`),
  and the `ReadMode`s it reads in.
- `src/bbcode2/model.rs`: the tokenizer as a state machine over those values
  (`step`, `run`, `tokenized`) and the states it can be in (`valid`).
- `src/bbcode2/tokenizer.rs`: the executable `Tokenizer`, proved to follow the model, and
  `can_read`, which decides whether `tokenize` can read an input.
- `src/bbcode2/laws.rs`: what holds for all inputs: sanitized output (delimiters and `&`),
  the shape of the output, output that only grows, committing once, plain text,
  line breaks, opening, closing and broken tags, and which inputs a fresh tokenizer reads.
- `src/compat/xf/message.rs`: the order of a chat room's history.
- `app/`: the chat server's actor messages (actix).
