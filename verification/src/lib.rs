//! State that several nodes change at the same time, without locks and without
//! conflicts.
//!
//! - [`lww_register::LWWRegister`]: a register in which the last writer wins.
//! - [`or_set::ORSet`]: a set in which an addition wins over a concurrent removal.
//! - [`rga::RGA`]: a list that is edited in several places at once.
//! - [`state_store::StateStore`]: a store of named registers, sets and lists, with
//!   envelopes for the other stores; [`proxy::StateProxy`] queues them, and
//!   [`wasm::WasmStateStore`] takes values as JSON text.
//! - [`lamport_clock::LamportClock`] and [`vector_clock::VectorClock`]: logical time.
//! - [`relay::Rooms`]: a relay for envelopes, with [`security`] and [`config`].
//!
//! What the operations do is said in their contracts, over the mathematical states
//! of [`rga_model`], [`store_model`] and [`relay_model`].  The modules whose names
//! end in `_laws` hold what follows from them: that replicas converge whatever the
//! order of arrival, that nothing comes of receiving an operation again, what merging
//! does, and what each operation does and leaves alone.

pub mod config;
pub mod config_laws;
pub mod copies;
pub mod id_map;
pub mod json;
pub mod json_laws;
pub mod lamport_clock;
pub mod lex;
pub mod lww_laws;
pub mod lww_register;
pub mod or_set;
pub mod or_set_laws;
pub mod proxy;
pub mod relay;
pub mod relay_laws;
pub mod relay_model;
pub mod rga;
pub mod rga_edit_laws;
pub mod rga_effect_laws;
pub mod rga_facts;
pub mod rga_laws;
pub mod rga_merge_laws;
pub mod rga_model;
pub mod rga_order;
pub mod security;
pub mod state_store;
pub mod store_effect_laws;
pub mod store_laws;
pub mod store_merge_laws;
pub mod store_model;
pub mod str_map;
pub mod text;
pub mod text_laws;
pub mod unique;
pub mod vector_clock;
pub mod wasm;

pub use lamport_clock::LamportClock;
pub use lww_register::LWWRegister;
pub use or_set::ORSet;
pub use rga::RGA;
pub use state_store::StateStore;
pub use vector_clock::VectorClock;
