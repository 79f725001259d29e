# simsearch

A small in-memory fuzzy search index for embedded autocomplete and search
suggestions, written in Verus.

- `src/` is the verified library: the tokenizer (`text.rs`), the options
  (`options.rs`), the term table kept in lexicographic order (`order.rs`,
  `terms.rs`), the index and its consistency invariant (`model.rs`,
  `index.rs`), collecting the matches of a query (`matches.rs`), the integer
  parts of ranking (`rank.rs`) and the laws that hold across operations
  (`laws.rs`).
- `app/` holds what depends on floating-point numbers: expanding query terms
  by prefix and Jaro-Winkler similarity (`strsim`), scoring and ordering the
  hits, and the serde forms of the public types.
- `tests/` exercises the library.
