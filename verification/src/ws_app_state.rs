//! Data model of the coordination engine: clients, rooms, memberships,
//! and the process-wide registries, together with the well-formedness
//! invariant that every state transition preserves.
//!
//! Clients are addressed by a process-unique integer identifier and
//! rooms by their string id, so that cross-references between the
//! aggregates are plain values looked up through the registries.

use vstd::prelude::*;

verus! {

/// One client's participation record within a room, carrying the
/// `owner` and `admin` authorization flags.
#[derive(Clone, Copy, PartialEq, Eq, Structural, Debug)]
pub struct RoomClient {
    pub uid: u128,
    pub owner: bool,
    pub admin: bool,
}

/// Mutable state of a room: the membership list (in join order, except
/// for the effect of removals) and the shared metadata.
pub struct RoomData {
    pub clients: Vec<RoomClient>,
    pub page_url: Option<String>,
    pub allow_stop_due_to_video_loading: bool,
}

/// A named room: its registry key together with its mutable state.
pub struct Room {
    pub room_id: String,
    pub data: RoomData,
}

/// Mutable per-client profile: the optional display name and the id of
/// the room currently joined, if any.
pub struct ClientData {
    pub name: Option<String>,
    pub room: Option<String>,
}

/// One connected client: its process-unique identifier and its profile.
pub struct Client {
    pub uid: u128,
    pub data: ClientData,
}

/// The process-wide registries: every connected client and every live
/// room. A room is created on the first join to its id and removed as
/// soon as its membership becomes empty.
pub struct WsAppState {
    pub clients: Vec<Client>,
    pub rooms: Vec<Room>,
}

/// The view of an optional string, for contracts that compare profile
/// fields by content.
pub open spec fn opt_name_view(o: Option<String>) -> Option<Seq<char>> {
    match o {
        Some(s) => Some(s@),
        None => None,
    }
}

impl RoomClient {
    /// A member may control the room iff it holds the owner or the
    /// admin flag.
    pub fn can_control(&self) -> (r: bool)
        ensures
            r == (self.owner || self.admin),
    {
        self.owner || self.admin
    }
}

impl RoomData {
    /// Whether some membership entry carries `uid`.
    pub open spec fn spec_has_member(self, uid: u128) -> bool {
        exists|i: int| 0 <= i < self.clients@.len() && (#[trigger] self.clients@[i]).uid == uid
    }

    /// The position of the membership entry for `uid`; meaningful only
    /// under `members_unique`.
    pub open spec fn spec_member_index(self, uid: u128) -> int {
        choose|i: int| 0 <= i < self.clients@.len() && (#[trigger] self.clients@[i]).uid == uid
    }

    /// The membership entry for `uid`; meaningful only under
    /// `members_unique`.
    pub open spec fn spec_member(self, uid: u128) -> RoomClient {
        self.clients@[self.spec_member_index(uid)]
    }

    /// At most one membership entry per client.
    pub open spec fn members_unique(self) -> bool {
        forall|i: int, j: int|
            0 <= i < j < self.clients@.len()
                ==> (#[trigger] self.clients@[i]).uid != (#[trigger] self.clients@[j]).uid
    }

    /// Exactly one membership entry holds the owner flag.
    pub open spec fn one_owner(self) -> bool {
        &&& exists|i: int| 0 <= i < self.clients@.len() && (#[trigger] self.clients@[i]).owner
        &&& forall|i: int, j: int|
            0 <= i < self.clients@.len() && 0 <= j < self.clients@.len()
                && (#[trigger] self.clients@[i]).owner && (#[trigger] self.clients@[j]).owner
                ==> i == j
    }

    /// Well-formedness of a room's membership: entries are unique per
    /// client, and a nonempty room has exactly one owner.
    pub open spec fn wf(self) -> bool {
        &&& self.members_unique()
        &&& self.clients@.len() > 0 ==> self.one_owner()
    }

    /// Whether `uid` is a member with control rights (owner or admin).
    pub open spec fn spec_can_control(self, uid: u128) -> bool {
        self.spec_has_member(uid) && (self.spec_member(uid).owner || self.spec_member(uid).admin)
    }

    /// The position of the membership entry for `uid`, if any.
    pub(crate) fn find_member_index(&self, uid: u128) -> (r: Option<usize>)
        ensures
            match r {
                Some(i) => i < self.clients@.len() && self.clients@[i as int].uid == uid,
                None => !self.spec_has_member(uid),
            },
    {
        let mut i: usize = 0;
        while i < self.clients.len()
            invariant
                i <= self.clients@.len(),
                forall|k: int| 0 <= k < i ==> (#[trigger] self.clients@[k]).uid != uid,
            decreases self.clients@.len() - i,
        {
            if self.clients[i].uid == uid {
                return Some(i);
            }
            i += 1;
        }
        None
    }

    /// Appends a plain (non-owner, non-admin) membership for `client_uid`.
    /// A client that already holds a membership here must not be added
    /// again; that is the caller's error.
    pub fn add_client(&mut self, client_uid: u128)
        requires
            !old(self).spec_has_member(client_uid),
        ensures
            final(self).clients@ == old(self).clients@.push(
                (RoomClient { uid: client_uid, owner: false, admin: false }),
            ),
            final(self).page_url == old(self).page_url,
            final(self).allow_stop_due_to_video_loading == old(
                self,
            ).allow_stop_due_to_video_loading,
    {
        self.clients.push(RoomClient { uid: client_uid, owner: false, admin: false });
    }

    /// Removes the membership for `client_uid`, if present; removing an
    /// absent client is a no-op. If the removed membership held the
    /// owner flag and members remain, the membership now at position 0
    /// (the earliest-joined remaining member) becomes owner; admin
    /// flags are untouched.
    pub fn remove_client(&mut self, client_uid: u128)
        requires
            old(self).wf(),
        ensures
            final(self).wf(),
            final(self).page_url == old(self).page_url,
            final(self).allow_stop_due_to_video_loading == old(
                self,
            ).allow_stop_due_to_video_loading,
            !old(self).spec_has_member(client_uid) ==> *final(self) == *old(self),
            old(self).spec_has_member(client_uid) ==> ({
                let i = old(self).spec_member_index(client_uid);
                let rest = old(self).clients@.remove(i);
                if old(self).clients@[i].owner && rest.len() > 0 {
                    final(self).clients@ == rest.update(
                        0,
                        (RoomClient { uid: rest[0].uid, owner: true, admin: rest[0].admin }),
                    )
                } else {
                    final(self).clients@ == rest
                }
            }),
    {
        let index = match self.find_member_index(client_uid) {
            Some(i) => i,
            None => {
                return ;
            },
        };
        proof {
            assert(self.spec_has_member(client_uid));
            assert(self.spec_member_index(client_uid) == index);
        }
        let owner_left = self.clients[index].owner;
        self.clients.remove(index);
        if owner_left && self.clients.len() > 0 {
            let first = self.clients[0];
            self.clients.set(0, RoomClient { uid: first.uid, owner: true, admin: first.admin });
        }
        proof {
            assert(self.members_unique()) by {
                assert(forall|k: int| 0 <= k < self.clients@.len() ==> (
                #[trigger] self.clients@[k]).uid == old(self).clients@.remove(index as int)[k].uid);
            }
            if self.clients@.len() > 0 {
                assert(self.one_owner()) by {
                    let oldc = old(self).clients@;
                    if owner_left {
                        assert(self.clients@[0].owner);
                        assert(forall|k: int|
                            0 < k < self.clients@.len() ==> !(#[trigger] self.clients@[k]).owner);
                    } else {
                        let oi = choose|i: int| 0 <= i < oldc.len() && (#[trigger] oldc[i]).owner;
                        let ni = if oi < index { oi } else { oi - 1 };
                        assert(self.clients@[ni].owner);
                    }
                }
            }
        }
    }

    /// The membership entry for `client_uid`, if any.
    pub fn find_room_client(&self, client_uid: u128) -> (r: Option<&RoomClient>)
        requires
            self.members_unique(),
        ensures
            match r {
                Some(c) => self.spec_has_member(client_uid) && *c == self.spec_member(client_uid),
                None => !self.spec_has_member(client_uid),
            },
    {
        match self.find_member_index(client_uid) {
            Some(i) => Some(&self.clients[i]),
            None => None,
        }
    }

    /// Whether `client_uid` is a member with control rights.
    pub fn can_control(&self, client_uid: u128) -> (r: bool)
        requires
            self.members_unique(),
        ensures
            r == self.spec_can_control(client_uid),
    {
        match self.find_room_client(client_uid) {
            Some(room_client) => room_client.can_control(),
            None => false,
        }
    }
}

impl Room {
    /// A fresh empty room with default metadata.
    pub fn new(room_id: String) -> (room: Room)
        ensures
            room.room_id == room_id,
            room.data.clients@.len() == 0,
            room.data.page_url is None,
            room.data.allow_stop_due_to_video_loading == true,
    {
        Room {
            room_id,
            data: RoomData {
                clients: Vec::new(),
                page_url: None,
                allow_stop_due_to_video_loading: true,
            },
        }
    }

    /// A fresh room whose sole member is `client_uid`, flagged
    /// owner and admin, as on first join to an unused room id.
    pub fn new_with_owner(room_id: String, client_uid: u128) -> (room: Room)
        ensures
            room.room_id == room_id,
            room.data.clients@ == seq![(RoomClient { uid: client_uid, owner: true, admin: true })],
            room.data.page_url is None,
            room.data.allow_stop_due_to_video_loading == true,
            room.data.wf(),
    {
        let mut clients: Vec<RoomClient> = Vec::new();
        clients.push(RoomClient { uid: client_uid, owner: true, admin: true });
        proof {
            assert(clients@ =~= seq![(RoomClient { uid: client_uid, owner: true, admin: true })]);
            assert(clients@[0].owner);
        }
        Room {
            room_id,
            data: RoomData { clients, page_url: None, allow_stop_due_to_video_loading: true },
        }
    }
}

impl Client {
    /// A fresh client profile for a newly accepted connection: no name
    /// set, no room joined. The identifier is generated at the
    /// connection edge and handed in.
    pub fn new(uid: u128) -> (client: Client)
        ensures
            client.uid == uid,
            client.data.name is None,
            client.data.room is None,
    {
        Client { uid, data: ClientData { name: None, room: None } }
    }
}

impl WsAppState {
    /// Whether `uid` is a registered client.
    pub open spec fn has_client(self, uid: u128) -> bool {
        exists|i: int| 0 <= i < self.clients@.len() && (#[trigger] self.clients@[i]).uid == uid
    }

    /// The registry position of client `uid`; meaningful only under
    /// `clients_unique`.
    pub open spec fn client_index(self, uid: u128) -> int {
        choose|i: int| 0 <= i < self.clients@.len() && (#[trigger] self.clients@[i]).uid == uid
    }

    /// The profile of client `uid`; meaningful only under
    /// `clients_unique`.
    pub open spec fn spec_client(self, uid: u128) -> ClientData {
        self.clients@[self.client_index(uid)].data
    }

    /// Client identifiers are unique across the registry.
    pub open spec fn clients_unique(self) -> bool {
        forall|i: int, j: int|
            0 <= i < j < self.clients@.len()
                ==> (#[trigger] self.clients@[i]).uid != (#[trigger] self.clients@[j]).uid
    }

    /// Whether a room with id `rid` is registered.
    pub open spec fn has_room(self, rid: Seq<char>) -> bool {
        exists|i: int| 0 <= i < self.rooms@.len() && (#[trigger] self.rooms@[i]).room_id@ == rid
    }

    /// The registry position of the room with id `rid`; meaningful only
    /// under `rooms_unique`.
    pub open spec fn room_index(self, rid: Seq<char>) -> int {
        choose|i: int| 0 <= i < self.rooms@.len() && (#[trigger] self.rooms@[i]).room_id@ == rid
    }

    /// The state of the room with id `rid`; meaningful only under
    /// `rooms_unique`.
    pub open spec fn spec_room(self, rid: Seq<char>) -> RoomData {
        self.rooms@[self.room_index(rid)].data
    }

    /// Room ids are unique across the registry.
    pub open spec fn rooms_unique(self) -> bool {
        forall|i: int, j: int|
            0 <= i < j < self.rooms@.len()
                ==> (#[trigger] self.rooms@[i]).room_id@ != (#[trigger] self.rooms@[j]).room_id@
    }

    /// Every registered room is nonempty and well formed: an empty room
    /// is removed from the registry at once, and a nonempty room has
    /// exactly one owner.
    pub open spec fn rooms_wf(self) -> bool {
        forall|i: int|
            0 <= i < self.rooms@.len() ==> (#[trigger] self.rooms@[i]).data.clients@.len() > 0
                && self.rooms@[i].data.wf()
    }

    /// A client's room reference points at a registered room that lists
    /// it as a member; a client without a room reference is a member of
    /// no room.
    pub open spec fn client_rooms_linked(self) -> bool {
        forall|i: int|
            0 <= i < self.clients@.len() ==> match (#[trigger] self.clients@[i]).data.room {
                Some(rid) => self.has_room(rid@) && self.spec_room(rid@).spec_has_member(
                    self.clients@[i].uid,
                ),
                None => forall|j: int|
                    0 <= j < self.rooms@.len() ==> !(#[trigger] self.rooms@[j]).data.spec_has_member(
                        self.clients@[i].uid,
                    ),
            }
    }

    /// Every membership entry belongs to a registered client whose room
    /// reference names exactly that room.
    pub open spec fn room_members_linked(self) -> bool {
        forall|j: int, k: int|
            0 <= j < self.rooms@.len() && 0 <= k < self.rooms@[j].data.clients@.len() ==> ({
                let uid = (#[trigger] self.rooms@[j].data.clients@[k]).uid;
                self.has_client(uid) && (match self.spec_client(uid).room {
                    Some(rid) => rid@ == self.rooms@[j].room_id@,
                    None => false,
                })
            })
    }

    /// The registry-wide invariant: unique keys, well-formed nonempty
    /// rooms, and mutual agreement between every client's room
    /// reference and every room's membership list.
    pub open spec fn wf(self) -> bool {
        &&& self.clients_unique()
        &&& self.rooms_unique()
        &&& self.rooms_wf()
        &&& self.client_rooms_linked()
        &&& self.room_members_linked()
    }

    /// Empty registries, as at process start.
    pub fn new() -> (state: WsAppState)
        ensures
            state.clients@.len() == 0,
            state.rooms@.len() == 0,
            state.wf(),
    {
        WsAppState { clients: Vec::new(), rooms: Vec::new() }
    }

    /// The registry position of client `uid`, if registered.
    pub fn find_client_index(&self, uid: u128) -> (r: Option<usize>)
        ensures
            match r {
                Some(i) => i < self.clients@.len() && self.clients@[i as int].uid == uid,
                None => !self.has_client(uid),
            },
    {
        let mut i: usize = 0;
        while i < self.clients.len()
            invariant
                i <= self.clients@.len(),
                forall|k: int| 0 <= k < i ==> (#[trigger] self.clients@[k]).uid != uid,
            decreases self.clients@.len() - i,
        {
            if self.clients[i].uid == uid {
                return Some(i);
            }
            i += 1;
        }
        None
    }

    /// Whether `uid` is a registered client.
    pub fn contains_client(&self, uid: u128) -> (r: bool)
        ensures
            r == self.has_client(uid),
    {
        self.find_client_index(uid).is_some()
    }

    /// The registry position of the room named `room_id`, if any.
    pub fn find_room_index(&self, room_id: &String) -> (r: Option<usize>)
        ensures
            match r {
                Some(i) => i < self.rooms@.len() && self.rooms@[i as int].room_id@ == room_id@,
                None => !self.has_room(room_id@),
            },
    {
        let mut i: usize = 0;
        while i < self.rooms.len()
            invariant
                i <= self.rooms@.len(),
                forall|k: int| 0 <= k < i ==> (#[trigger] self.rooms@[k]).room_id@ != room_id@,
            decreases self.rooms@.len() - i,
        {
            if self.rooms[i].room_id == *room_id {
                return Some(i);
            }
            i += 1;
        }
        None
    }

    /// Registers a freshly connected client with identifier `uid` and
    /// an empty profile. Returns false and leaves the registries
    /// unchanged if `uid` is already taken, so that the connection edge
    /// can draw another identifier.
    pub fn register_client(&mut self, uid: u128) -> (ok: bool)
        requires
            old(self).wf(),
        ensures
            final(self).wf(),
            ok == !old(self).has_client(uid),
            ok ==> final(self).clients@ == old(self).clients@.push(
                (Client { uid, data: ClientData { name: None, room: None } }),
            ) && final(self).rooms@ == old(self).rooms@,
            !ok ==> *final(self) == *old(self),
            final(self).has_client(uid),
    {
        if self.contains_client(uid) {
            return false;
        }
        self.clients.push(Client::new(uid));
        proof {
            let n = self.clients@.len() - 1;
            assert(self.clients@[n].uid == uid);
            assert forall|i: int|
                0 <= i < self.clients@.len() implies match (
            #[trigger] self.clients@[i]).data.room {
                Some(rid) => self.has_room(rid@) && self.spec_room(rid@).spec_has_member(
                    self.clients@[i].uid,
                ),
                None => forall|j: int|
                    0 <= j < self.rooms@.len() ==> !(#[trigger] self.rooms@[j]).data.spec_has_member(
                        self.clients@[i].uid,
                    ),
            } by {
                if i < n {
                    assert(self.clients@[i] == old(self).clients@[i]);
                    assert(old(self).client_rooms_linked());
                    match old(self).clients@[i].data.room {
                        Some(rid) => {
                            assert(old(self).has_room(rid@));
                            assert(old(self).spec_room(rid@).spec_has_member(
                                old(self).clients@[i].uid,
                            ));
                            assert(self.has_room(rid@) && self.room_index(rid@) == old(
                                self,
                            ).room_index(rid@));
                        },
                        None => {},
                    }
                }
            }
            assert forall|j: int, k: int|
                0 <= j < self.rooms@.len() && 0 <= k
                    < self.rooms@[j].data.clients@.len() implies ({
                let m_uid = (#[trigger] self.rooms@[j].data.clients@[k]).uid;
                self.has_client(m_uid) && (match self.spec_client(m_uid).room {
                    Some(rid) => rid@ == self.rooms@[j].room_id@,
                    None => false,
                })
            }) by {
                let m_uid = self.rooms@[j].data.clients@[k].uid;
                assert(old(self).room_members_linked());
                assert(old(self).has_client(m_uid));
                let ci = old(self).client_index(m_uid);
                assert(self.clients@[ci].uid == m_uid);
                assert(self.client_index(m_uid) == ci);
            }
        }
        true
    }
}

/// Law: in a well-formed state, every registered room is nonempty and
/// the number of owner-flagged memberships in it is exactly one; an
/// empty room is never registered at all.
pub proof fn lemma_one_owner_per_room(state: WsAppState, j: int)
    requires
        state.wf(),
        0 <= j < state.rooms@.len(),
    ensures
        state.rooms@[j].data.clients@.len() > 0,
        exists|k: int|
            0 <= k < state.rooms@[j].data.clients@.len() && (
            #[trigger] state.rooms@[j].data.clients@[k]).owner,
        forall|k: int, l: int|
            0 <= k < state.rooms@[j].data.clients@.len() && 0 <= l
                < state.rooms@[j].data.clients@.len() && (
            #[trigger] state.rooms@[j].data.clients@[k]).owner && (
            #[trigger] state.rooms@[j].data.clients@[l]).owner ==> k == l,
{
    assert(state.rooms@[j].data.clients@.len() > 0 && state.rooms@[j].data.wf());
    assert(state.rooms@[j].data.one_owner());
}

/// Law: a client's room reference is set iff that client appears in
/// some room's membership list; and whenever it appears, it appears in
/// exactly one room.
pub proof fn lemma_room_reference_agrees(state: WsAppState, i: int)
    requires
        state.wf(),
        0 <= i < state.clients@.len(),
    ensures
        (state.clients@[i].data.room is Some) <==> exists|j: int|
            0 <= j < state.rooms@.len() && (#[trigger] state.rooms@[j]).data.spec_has_member(
                state.clients@[i].uid,
            ),
        state.clients@[i].data.room matches Some(rid) ==> state.has_room(rid@) && state.spec_room(
            rid@,
        ).spec_has_member(state.clients@[i].uid),
        forall|j1: int, j2: int|
            0 <= j1 < state.rooms@.len() && 0 <= j2 < state.rooms@.len() && (
            #[trigger] state.rooms@[j1]).data.spec_has_member(state.clients@[i].uid) && (
            #[trigger] state.rooms@[j2]).data.spec_has_member(state.clients@[i].uid) ==> j1 == j2,
{
    let uid = state.clients@[i].uid;
    match state.clients@[i].data.room {
        Some(rid) => {
            assert(state.has_room(rid@) && state.spec_room(rid@).spec_has_member(uid));
            let rj = state.room_index(rid@);
            assert(0 <= rj < state.rooms@.len() && state.rooms@[rj].data.spec_has_member(uid));
        },
        None => {},
    }
    assert forall|j1: int, j2: int|
        0 <= j1 < state.rooms@.len() && 0 <= j2 < state.rooms@.len() && (
    #[trigger] state.rooms@[j1]).data.spec_has_member(uid) && (
    #[trigger] state.rooms@[j2]).data.spec_has_member(uid) implies j1 == j2 by {
        let k1 = choose|k: int|
            0 <= k < state.rooms@[j1].data.clients@.len() && (
            #[trigger] state.rooms@[j1].data.clients@[k]).uid == uid;
        let k2 = choose|k: int|
            0 <= k < state.rooms@[j2].data.clients@.len() && (
            #[trigger] state.rooms@[j2].data.clients@[k]).uid == uid;
        assert(state.rooms@[j1].data.clients@[k1].uid == uid);
        assert(state.rooms@[j2].data.clients@[k2].uid == uid);
        assert(state.rooms@[j1].room_id@ == state.rooms@[j2].room_id@);
        if j1 != j2 {
            assert(false);
        }
    }
}

} // verus!
