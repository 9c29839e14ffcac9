//! Orchestration of multi-session inference for causal language models:
//! dialog and key/value-cache bookkeeping, the batching queue, the
//! dispatcher's batch planning and token routing, and the integer geometry
//! of a fused forward pass.

use vstd::prelude::*;

pub mod backend;
pub mod batcher;
pub mod cache;
pub mod chat;
pub mod dialog;
pub mod dispatch;
pub mod forward;
pub mod manager;
pub mod session;
pub mod shape;
pub mod template;
pub mod tokenizer;
pub mod topk;

verus! {

/// Identifier of a vocabulary entry.
pub type Token = u32;

} // verus!
