# scour

A local web scraper whose decisions are verified with Verus.

- `src/` is the library: detecting bot walls, making pages readable, narrowing and paging
  them, judging whether they are usable, caching, crawling, searching. It does no I/O; every
  function has a contract that Verus proves.
- `src/bindings/` holds the calls into other crates (`scraper`, `readability`, `ammonia`,
  `html2md`, `url`, `base64`, `lru`) and into the Unicode tables of the standard library. Their
  contracts are taken on trust.
- `app/` is the program around it: an MCP server on stdio, and a command line for one page.
  It fetches with `reqwest`, drives a headless browser, keeps the cache file, and computes the
  scores that are floating-point numbers, which it hands to the library by their bits.
- `tests/` runs the library with the real crates linked.

Limits that are called chars count characters. An offset into a text counts bytes of UTF-8, as
`next_offset` gives it.
