//! Local-AI plumbing: chat templates, tokenizers, tensor containers and
//! Hub cache helpers, with their logic verified by Verus.

pub mod bpe;
pub mod bpe_laws;
pub mod encoding;
pub mod gguf;
pub mod hub;
pub mod json;
pub mod json_serde;
pub mod json_text;
pub mod loader;
pub mod lora;
pub mod normalize;
pub mod pretokenize;
pub mod safetensors;
pub mod safetensors_writer;
pub mod template;
pub mod template_expr;
pub mod template_parse;
pub mod template_scan;
pub mod text;
pub mod tokenizer;
pub mod vocab;
pub mod wordpiece;
