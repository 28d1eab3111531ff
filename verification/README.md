# siel

A local-first knowledge engine: questions and answers are stored encrypted per
item, retrieved deterministically (exact, full-text, fuzzy and vector search,
fused by reciprocal rank), and answered only from retrieved evidence under a
confidence policy.

- `src/` is the library, written and proved with Verus: the payload cryptography
  around `sha2` and `chacha20poly1305`, the store's sealed rows, tokenisation and
  edit distance, rank fusion and stable ranking, the confidence calibrator and
  answering policy, the in-memory vector index and the vector storage format,
  the prompt and the checks applied to a model's answer.
- `tests/` exercises the library on concrete values.
- `app/` is the HTTP server: SQLite statements, the llama.cpp client, the
  floating-point scoring (cosine similarity, fused scores, embedding scaling)
  and the JSON forms of the library's types.
