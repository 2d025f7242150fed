# ptx

Builds Anki flashcard decks for the NVIDIA PTX ISA from its HTML documentation,
with the deck logic verified by Verus.

## Layout

- `src/text.rs`: character classes, searching, trimming and whitespace rules
  on `Seq<char>`, with executable versions.
- `src/module.rs`: the study modules (Core, Instructions, Concepts) and the
  classification of dotted section numbers.
- `src/parse.rs`: the entry model and the text rules of an entry: qualifier
  lists of a syntax block, the introducing PTX version, the architecture floor.
- `src/section.rs`: how one `<section>` of the document becomes an entry,
  over a plain-value copy of its child elements.
- `src/dom.rs`: what `scraper` reads of a page, copied into those plain values
  behind one trusted function, and named (`html_sections`) so that the
  contract of `parse` can speak of it.
- `src/hash.rs`: SHA-256 through `sha2`.
- `src/deck.rs`: note types, GUIDs, deck ids and the deck definition.
- `src/report.rs`: module selection, the `--modules` list, and the coverage
  and note-count reports.
- `src/deck_laws.rs`, `src/parse_laws.rs`: properties of the deck and of the
  parser, stated over the spec functions and proved.
- `app/`: the command line, JSON and TOML output, and `.apkg` writing through
  `ankit-builder`.
- `tests/`: tests of the library, including end-to-end `.apkg` checks.

## Data model notes

- A note's fields (`NoteDef::fields`) are a vector of `(name, text)` pairs in
  ascending order of field name, the order a `BTreeMap<String, String>` would
  give them, rather than such a map. With `String` keys Verus can prove nothing
  about what a map holds, while the view of a vector of pairs is a sequence that
  the contract of `deck::build` states exactly, names ascending included.
  `app/` collects the pairs into a `BTreeMap` for the TOML output.
- `parse` reads the page through `scraper`. What `scraper` finds in a page is
  named (`dom::html_sections`), and the contract of `parse` is exact over that
  name: the entries are the section rules of `section` applied to the page's
  `<section id=...>` elements in document order.
