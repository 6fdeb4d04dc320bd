# parse_rust

Parsing strings against `format()`-style templates, the inverse of
Python's `str.format()`: given `"User {name:w} is {:d}"` and
`"User Alice is 30"`, it finds `name = "Alice"` and the positional value
`30`. The library is written in Verus. Its own functions in `src/` carry
contracts that Verus proves; the few functions that call into the `regex`
crate or into std (marked `#[verifier::external_body]`) carry contracts
that are taken on trust, as described below.

## Layout

- `src/text.rs` — characters, UTF-8 byte offsets and the conversions
  between byte and character positions.
- `src/numbers.rs` — digits, `from_str_radix`-style integer reading and the
  float literal grammar.
- `src/decimals.rs` — the number a float text stands for, so that two
  float values are compared as numbers (`1.0` equals `1.00`, `nan` equals
  nothing).
- `src/types.rs` — the format types (`d`, `w`, `ti`, ...), their regexes and
  how matched text converts to a value.
- `src/compiler.rs` — format specifications and the compilation of a format
  string into a regex with one capture group per field; numeric fields take
  an optional sign, and the fill of an aligned field is matched outside its
  group.
- `src/engine.rs` — the calls into the `regex` crate.
- `src/nested.rs` — named values under bracketed names such as `a[b][c]`.
- `src/parser.rs` — `Parser`, reading the fields of a match, `parse`,
  `search`, `findall` and the parser cache.
- `src/datetime.rs` — the normalisations of datetime text and the
  `strptime` attempts that turn it into a value.
- `src/api.rs` — the decisions behind the Python-facing functions.
- `app/` — the Python module built with PyO3: the Python classes, the
  global parser cache, floats, and the calls into Python's `datetime`.
- `tests/` — tests of the library.

## What is proved

Besides the contract of each function, the library proves laws such as:
splitting a format and writing the parts back gives the format again when
every field is closed (a field left open at the end comes back closed),
and the parts hold no empty or doubled literal text; a case-insensitive
format compiles to a pattern that starts with `(?i)`; a field's group name
holds no `.`, `[`, `]` or `-` and belongs to no other field; reading a
match fails with an error only at a repeated field whose values differ,
and the error starts with `RepeatedNameError:`; a `%` that starts no known
datetime directive stays a literal `%`; every span of
a result lies inside its match; `findall` returns its results in text
order, the first of them being what `search` finds; a value stored under a
bracketed name is found again by following that name; positional fields
are numbered in order and read their own groups; normalising a UTC
offset twice changes nothing more than once.

What the regex engine matches is not proved: it is named in
`src/engine.rs`, and the contracts are stated over those names. The
wrappers there, and those in `src/text.rs` and `src/parser.rs` around std
calls, are trusted: their contracts restate what the `regex` crate and
std document, and nothing checks them but reading.
