//! Verified core of a dialogue and cutscene sequencer.
//!
//! A cutscene is a tree of fragments: lines of dialogue, pauses and gated
//! conditions, grouped into sequences ([`fragment`]). A
//! [`scheduler::Scheduler`] walks such trees, each at most one leaf at a
//! time ([`schedule`], [`playback`]). Every activation of a leaf carries a
//! fresh [`token::EndToken`], and playback moves on only when that very
//! token comes back. Three bridges decide when it does: [`delay`] counts
//! pauses down, [`dialogue`] feeds the textbox and waits for the user,
//! [`observer`] keeps the observers of conditions. [`bridges`] routes what
//! the scheduler starts to the bridge that serves it, and [`cutscene`] moves
//! scheduler and bridges together. [`callback`] holds procedures that
//! register with the host on first use; [`chara`] and [`textbox`] describe
//! what the textbox is sent.
//!
//! The library performs no side effect on the host. Every operation takes
//! plain values, changes the state it owns, and returns what the host is
//! asked to do.

pub mod bridges;
pub mod callback;
pub mod chara;
pub mod cutscene;
pub mod delay;
pub mod dialogue;
pub mod fragment;
pub mod observer;
pub mod playback;
pub mod schedule;
pub mod scheduler;
pub mod textbox;
pub mod token;
