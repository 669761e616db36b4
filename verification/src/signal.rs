//! The change signal: one shared atomic slot between the graph's
//! notification callbacks, the shutdown trigger, and the control loop.
//!
//! Writers overwrite unconditionally — last write wins, concurrent causes
//! collapse into one pending action — and the control loop samples the slot
//! once per tick. Nothing ever blocks on it.

use std::sync::atomic::{AtomicU8, Ordering};
use std::sync::Arc;
use vstd::prelude::*;

verus! {

/// What the control loop should do at its next tick.
#[derive(Clone, Copy, Debug, PartialEq, Eq, Structural)]
pub enum Action {
    /// Nothing pending: sleep and look again.
    Idle,
    /// The graph changed: run a reconciliation pass.
    Repatch,
    /// Shut down: leave the loop and tear down.
    Stop,
}

/// The byte an action is stored as in the shared slot.
pub open spec fn spec_action_code(a: Action) -> u8 {
    match a {
        Action::Idle => 0,
        Action::Repatch => 1,
        Action::Stop => 2,
    }
}

/// The action a slot byte denotes; a byte no writer uses reads as idle.
pub open spec fn spec_action_of(v: u8) -> Action {
    if v == 1 {
        Action::Repatch
    } else if v == 2 {
        Action::Stop
    } else {
        Action::Idle
    }
}

impl Action {
    /// The encoding of this action for the shared slot.
    pub fn to_u8(self) -> (r: u8)
        ensures
            r == spec_action_code(self),
    {
        match self {
            Action::Idle => 0,
            Action::Repatch => 1,
            Action::Stop => 2,
        }
    }

    /// The action a slot byte denotes, executably.
    pub fn from_u8(v: u8) -> (r: Action)
        ensures
            r == spec_action_of(v),
    {
        match v {
            1 => Action::Repatch,
            2 => Action::Stop,
            _ => Action::Idle,
        }
    }
}

/// Law: decoding an encoded action yields the action itself, so no write to
/// the slot is ever misread.
pub proof fn lemma_action_round_trip(a: Action)
    ensures
        spec_action_of(spec_action_code(a)) == a,
{
}

/// A handle on the shared change-signal slot. All handles made by `share`
/// refer to one slot; writes are unconditional atomic stores and reads are
/// atomic loads, so no holder ever blocks another.
pub struct Signal {
    cell: Arc<AtomicU8>,
}

impl Signal {
    /// A fresh signal slot holding the given action.
    pub fn new(a: Action) -> Signal {
        Signal { cell: Arc::new(AtomicU8::new(a.to_u8())) }
    }

    /// Another handle on the same slot.
    ///
    /// Relies on `Arc::clone`: the new handle shares the original's
    /// allocation.
    #[verifier::external_body]
    pub fn share(&self) -> Signal {
        Signal { cell: Arc::clone(&self.cell) }
    }

    /// Relies on `AtomicU8::store` with relaxed ordering: overwrites the
    /// slot; concurrent writers race and the last one wins.
    #[verifier::external_body]
    fn store_code(&self, v: u8) {
        self.cell.store(v, Ordering::Relaxed)
    }

    /// Relies on `AtomicU8::load` with relaxed ordering: yields a byte some
    /// writer stored; which one depends on the race.
    #[verifier::external_body]
    fn load_code(&self) -> u8 {
        self.cell.load(Ordering::Relaxed)
    }

    /// Writes an action into the slot, whatever it held before.
    pub fn set(&self, a: Action) {
        self.store_code(a.to_u8())
    }

    /// Reads the action currently in the slot. Whatever byte the load
    /// yields, decoding is total, so every read yields an action.
    pub fn get(&self) -> Action {
        Action::from_u8(self.load_code())
    }
}

/// Reacts to graph topology notifications. Each notification's only effect
/// is to mark the shared signal as needing a reconciliation pass: handlers
/// run on the graph engine's own thread and must neither block nor touch
/// the graph.
pub struct PortHandler {
    state: Signal,
}

impl PortHandler {
    /// A handler marking the given signal.
    pub fn new(s: &Signal) -> PortHandler {
        PortHandler { state: s.share() }
    }

    /// A client appeared or vanished; only an appearance asks for a pass.
    pub fn client_registration(&self, is_reg: bool) {
        if is_reg {
            self.state.set(Action::Repatch)
        }
    }

    /// A port appeared or vanished; only an appearance asks for a pass.
    pub fn port_registration(&self, is_reg: bool) {
        if is_reg {
            self.state.set(Action::Repatch)
        }
    }

    /// A port was renamed.
    pub fn port_rename(&self) {
        self.state.set(Action::Repatch)
    }

    /// Two ports were connected or disconnected.
    pub fn ports_connected(&self) {
        self.state.set(Action::Repatch)
    }
}

} // verus!
