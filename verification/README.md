# seroost

A small desktop search engine. Documents are split into tokens by a lexer,
tokens become terms through a term processor (raw, lowercase, uppercase or
English Snowball stemming), and the terms are counted into a term-frequency
model. A search finds the documents that hold a query term and ranks them.

Layout:

- `src/` is the verified library: the lexer (`index/lexer.rs`), the term
  processors (`index/term_processor.rs`), the string-keyed map that the model
  is built from (`index/str_map.rs`), the model with its statistics and laws
  (`index/model.rs`), indexing and the directory walk's decisions
  and the text of XML documents (`index.rs`), query matching (`search.rs`) and the command and routing
  decisions (`command.rs`).
- `app/` is the program around it: command-line parsing, reading files and
  directories, saving and loading the model as JSON, ranking with
  floating-point scores, and the HTTP server.
- `tests/` exercises the library.
