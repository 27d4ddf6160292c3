//! Core coordination engine for watch-together rooms: client and room
//! registries, membership with owner/admin authorization, the command
//! dispatch state machine, and snapshot assembly for broadcasts.
//!
//! The transport (websocket frames, JSON codec) lives outside this
//! library and hands it plain values.

use vstd::prelude::*;

pub mod ws_app_state;
pub mod ws_dto_models;
pub mod ws_handler;

verus! {

/// Builds the initial coordination state for process start: empty client
/// and room registries.
pub fn rocket() -> (state: ws_app_state::WsAppState)
    ensures
        state.clients@.len() == 0,
        state.rooms@.len() == 0,
        state.wf(),
{
    ws_app_state::WsAppState::new()
}

} // verus!
