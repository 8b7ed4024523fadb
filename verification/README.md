# tpt_local_ai

Local-AI plumbing — chat templates, tokenizers, tensor containers, LoRA
naming rules and Hub cache helpers — written as a Verus library whose
functions carry contracts that Verus proves.

* `src/` is the verified library:
  * `json`, `json_text`, `json_serde` — a JSON document model, its parser,
    and JSON text read and written through `serde_json`;
  * `template*` — the chat-template scanner, expression grammar and parser;
  * `tokenizer`, `vocab`, `bpe`, `bpe_laws`, `wordpiece`, `pretokenize`,
    `normalize`, `encoding`, `loader` — BPE and WordPiece tokenizers, their
    pre-tokenizers, special tokens, padding and truncation, and the
    `tokenizer.json` loader;
  * `safetensors`, `safetensors_writer`, `gguf` — reading and writing the
    safetensors layout and reading GGUF headers;
  * `lora` — adapter naming rules and half/bfloat16 rounding;
  * `hub` — repo-id and path checks, URLs and download decisions.
* `app/` holds what runs around it: HTTP downloads, memory maps, file
  output, serde conversions, and the floating-point work of template
  rendering and LoRA merging.
* `tests/` exercises both the library's scenarios and the laws it proves.
