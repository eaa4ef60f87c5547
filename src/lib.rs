//! Input-event and key-binding resolution for an interactive shell, with a
//! few companions of the shell's tooling.
//!
//! Terminal bytes are decoded into keys by an [`EscapeTable`](escape::EscapeTable)
//! and queued as events in an [`EventQueue`](queue::EventQueue); the resolver
//! matches the pending keys against the mode-scoped bindings of an
//! [`InputMappingSet`](bindings::InputMappingSet), always preferring the
//! longest complete binding, and an [`InputSession`](session::InputSession)
//! holds ordinary resolution back while a terminal query is outstanding.
//! The general properties of resolution are proved in [`laws`].
//!
//! Besides: reading gettext PO files ([`po`]), consistency checks on Fluent
//! message identifiers ([`fluent_ids`]), the counting of `string length`
//! ([`length`]) and the decisions of the source formatter ([`format`]).

pub mod key;
pub mod queue;
pub mod bindings;
pub mod escape;
pub mod resolver;
pub mod query;
pub mod session;
pub mod laws;
pub mod po;
pub mod length;
pub mod format;
pub mod fluent_ids;
