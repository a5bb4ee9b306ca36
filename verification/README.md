# sqz

A prompt-compression proxy for the OpenAI and Anthropic chat APIs, with its
compression engine verified in Verus.

- `src/` is the verified library: protected-region detection (code fences,
  inline code, JSON blocks), word boundaries, the static and domain rule
  layers and the ranking of all three layers' rules, the regular-expression
  preprocessor, the Aho-Corasick compressor, domain detection, token
  counting, the role-based compression of OpenAI chat messages and of
  Anthropic messages and system prompts, provider detection, upstream URLs
  and header forwarding, errors, admin requests, the configuration defaults
  and the environment and command-line overrides.
- `tests/` exercises the library with concrete inputs.
- `app/` is the program around it: configuration files and the command line,
  the SQLite store, the HTTP server and its handlers, streaming, the learned
  layer's confidence arithmetic and shadow testing.

Calls into `aho-corasick`, `regex`, `tiktoken-rs` and the standard library's
Unicode and UTF-8 functions are made through small trusted wrappers whose
contracts name what those crates compute.
