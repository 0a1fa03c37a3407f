# weggli

Semantic search for C and C++ code. A search pattern is a piece of code with wildcards and
variables, as in `{char $buf[_]; memcpy($buf, _, _);}`; the search finds code of the same shape.

`src/` is a library that is verified with Verus:

- `pattern` repairs and checks search patterns,
- `regexes` reads the constraints on variables,
- `files` chooses the files to search and parses those that may hold a match,
- `matches` chooses among the matches of one query, `chains` among those of several,
- `session` holds the checks before a search and the dialogue at the prompt,
- `location`, `paint` and `text` word and colour what is shown,
- `syntax` holds syntax trees as plain values, `queries` makes tree queries.

tree-sitter parses, `regex` matches text and `colored` colours it; what is relied on of them is
stated where they are called. `app/` is the program around the library. It is linked with the two
grammars and with the engine that matches patterns against syntax trees.
