//! Snapshot projection of a room's state, as broadcast to every member
//! after a state change. Member display names are resolved through the
//! client registry at assembly time.

use vstd::prelude::*;
use crate::ws_app_state::{opt_name_view, RoomClient, RoomData, WsAppState};

verus! {

/// Snapshot entry for one room member.
#[derive(PartialEq, Debug)]
pub struct RoomClientDto {
    pub name: Option<String>,
    pub uid: u128,
    pub owner: bool,
    pub admin: bool,
}

/// Snapshot of a room: its membership with resolved display names, and
/// its shared metadata.
#[derive(PartialEq, Debug)]
pub struct RoomDataDto {
    pub clients: Vec<RoomClientDto>,
    pub page_url: Option<String>,
    pub allow_stop_due_to_video_loading: bool,
}

/// The snapshot entry `d` projects the membership `m`, with the display
/// name that `state`'s client registry holds for it (no name if the
/// member is not registered).
pub open spec fn dto_client_matches(state: WsAppState, m: RoomClient, d: RoomClientDto) -> bool {
    &&& d.uid == m.uid
    &&& d.owner == m.owner
    &&& d.admin == m.admin
    &&& opt_name_view(d.name) == (if state.has_client(m.uid) {
        opt_name_view(state.spec_client(m.uid).name)
    } else {
        Option::<Seq<char>>::None
    })
}

/// The snapshot `dto` projects the room state `room`: entry for entry
/// in membership order, with `state`'s display names, and the room's
/// metadata copied.
pub open spec fn dto_matches(state: WsAppState, room: RoomData, dto: RoomDataDto) -> bool {
    &&& dto.clients@.len() == room.clients@.len()
    &&& forall|i: int|
        0 <= i < room.clients@.len() ==> dto_client_matches(
            state,
            room.clients@[i],
            #[trigger] dto.clients@[i],
        )
    &&& opt_name_view(dto.page_url) == opt_name_view(room.page_url)
    &&& dto.allow_stop_due_to_video_loading == room.allow_stop_due_to_video_loading
}

impl RoomClientDto {
    /// Projects one membership entry, resolving the member's display
    /// name through the client registry.
    pub fn from(value: &RoomClient, state: &WsAppState) -> (d: RoomClientDto)
        requires
            state.clients_unique(),
        ensures
            dto_client_matches(*state, *value, d),
    {
        let name: Option<String> = match state.find_client_index(value.uid) {
            Some(i) => {
                proof {
                    assert(state.has_client(value.uid));
                    assert(state.client_index(value.uid) == i);
                }
                match &state.clients[i].data.name {
                    Some(s) => Some(s.clone()),
                    None => None,
                }
            },
            None => None,
        };
        RoomClientDto { name, uid: value.uid, owner: value.owner, admin: value.admin }
    }
}

impl RoomDataDto {
    /// Projects a room's current membership and metadata into the
    /// snapshot that is broadcast to its members.
    pub fn from(value: &RoomData, state: &WsAppState) -> (dto: RoomDataDto)
        requires
            state.clients_unique(),
        ensures
            dto_matches(*state, *value, dto),
    {
        let mut clients: Vec<RoomClientDto> = Vec::new();
        let mut i: usize = 0;
        while i < value.clients.len()
            invariant
                state.clients_unique(),
                i <= value.clients@.len(),
                clients@.len() == i,
                forall|k: int|
                    0 <= k < i ==> dto_client_matches(
                        *state,
                        value.clients@[k],
                        #[trigger] clients@[k],
                    ),
            decreases value.clients@.len() - i,
        {
            clients.push(RoomClientDto::from(&value.clients[i], state));
            i += 1;
        }
        let page_url: Option<String> = match &value.page_url {
            Some(s) => Some(s.clone()),
            None => None,
        };
        RoomDataDto {
            clients,
            page_url,
            allow_stop_due_to_video_loading: value.allow_stop_due_to_video_loading,
        }
    }
}

} // verus!
