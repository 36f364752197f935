# rs_parser

A JSON reader and writer whose logic is verified with Verus.

- `src/source.rs`: byte-addressed access to a text (characters and slices at byte offsets).
- `src/json/lexer.rs`: the lexer, with its rules stated as spec functions over the UTF-8 bytes
  of the text (tokens, strings with escapes, the number automaton).
- `src/json/parser.rs`: the recursive-descent parser, stated as spec functions from the
  tokens and the current position to a result and the position it leaves. Values are read
  by the grammar; on tokens the grammar refuses, the error reported is the one a lenient
  reading meets first.
- `src/json/value.rs`: values, their mathematical model `JsonData`, and writing them as text.
- `src/json.rs`: `json_load` and `json_dumps`; `src/json/traits.rs`: `Serializer` and
  `Deserializer`.
- `src/json/grammar.rs`: the grammar of JSON over tokens, and the proof that the parser
  reads a value exactly when the grammar derives it from all the tokens.
- `src/json/laws.rs`, `src/json/round_trip.rs`, `src/json/reload.rs`: properties of the
  library as a whole: objects keep the last value of each key, tokens follow the text,
  whitespace in front only shifts the tokens, the number automaton accepts exactly JSON
  numbers, and text written for a value loads back to the value.
- `src/cli.rs`: the decisions of the command-line program; `app/` holds the program itself
  (argument parsing, reading the input, printing numbers as `f32`).
