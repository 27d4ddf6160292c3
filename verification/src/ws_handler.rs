//! The command dispatch state machine: one inbound command at a time is
//! validated against the current registries and, on success, applied;
//! the outcome carries the reply for the originating client and the
//! room snapshots to broadcast to the post-mutation membership.
//!
//! The transport decodes frames into [`IncomingMessage`] values, hands
//! them here, and delivers the resulting [`OutgoingMessage`] values.

use vstd::prelude::*;
use vstd::pervasive::unreached;
use vstd::string::StrSliceExecFns;
use crate::ws_app_state::{Client, ClientData, Room, RoomClient, RoomData, WsAppState};
use crate::ws_dto_models::{dto_client_matches, dto_matches, RoomDataDto};

verus! {

/// The error taxonomy. Every error is recoverable and reported only to
/// the originating client; no command failure terminates the session.
#[derive(Clone, Copy, PartialEq, Eq, Structural, Debug)]
pub enum ErrorKind {
    JsonError,
    ClientNotInAnyRoom,
    ClientNameNotSet,
    ClientNameTooShort,
    RoomIdTooShort,
    NoSuchClient,
    Forbidden,
}

/// One decoded inbound command.
#[derive(PartialEq, Debug)]
pub enum IncomingMessage {
    Ping,
    ChangeName { new_name: String },
    JoinRoom { room_id: String },
    ChangeClientAdminStatus { client_uid: u128, admin: bool },
    QuitRoom,
}

/// One outbound frame.
#[derive(PartialEq, Debug)]
pub enum OutgoingMessage {
    Pong,
    ClientUid { client_uid: u128 },
    Success,
    Error { kind: ErrorKind, msg: Option<String> },
    RoomChanged { data: RoomDataDto },
}

/// The result of dispatching one command: the reply owed to the
/// originating client, and the room snapshots to deliver to every
/// member listed inside each of them.
#[derive(PartialEq, Debug)]
pub struct DispatchOutcome {
    pub reply: OutgoingMessage,
    pub broadcasts: Vec<RoomDataDto>,
}

/// The client registries agree except possibly at position `ci`.
pub open spec fn clients_same_except(pre: WsAppState, post: WsAppState, ci: int) -> bool {
    &&& post.clients@.len() == pre.clients@.len()
    &&& forall|i: int|
        0 <= i < pre.clients@.len() && i != ci ==> post.clients@[i] == pre.clients@[i]
}

/// The room registries agree except possibly at position `rj`.
pub open spec fn rooms_same_except(pre: WsAppState, post: WsAppState, rj: int) -> bool {
    &&& post.rooms@.len() == pre.rooms@.len()
    &&& forall|j: int| 0 <= j < pre.rooms@.len() && j != rj ==> post.rooms@[j] == pre.rooms@[j]
}

/// The membership list of `room` after removing the entry at `mi`: the
/// remaining entries shift left, and if the removed entry held the
/// owner flag and members remain, the entry now at position 0 (the
/// earliest-joined remaining member) becomes owner.
pub open spec fn members_after_removal(room: RoomData, mi: int) -> Seq<RoomClient> {
    let rest = room.clients@.remove(mi);
    if room.clients@[mi].owner && rest.len() > 0 {
        rest.update(0, (RoomClient { uid: rest[0].uid, owner: true, admin: rest[0].admin }))
    } else {
        rest
    }
}

/// State transition of leaving one's room: the client's room reference
/// is cleared, its membership is removed with ownership transfer per
/// `members_after_removal`, and the room is deleted from the registry
/// if it became empty. Everything else is untouched.
pub open spec fn quit_state(pre: WsAppState, uid: u128, post: WsAppState) -> bool {
    let ci = pre.client_index(uid);
    let rid = (pre.spec_client(uid).room->0)@;
    let rj = pre.room_index(rid);
    let room = pre.rooms@[rj].data;
    let mi = room.spec_member_index(uid);
    let newm = members_after_removal(room, mi);
    &&& clients_same_except(pre, post, ci)
    &&& post.clients@[ci].uid == uid
    &&& post.clients@[ci].data.name == pre.clients@[ci].data.name
    &&& post.clients@[ci].data.room is None
    &&& if newm.len() == 0 {
        post.rooms@ == pre.rooms@.remove(rj)
    } else {
        &&& rooms_same_except(pre, post, rj)
        &&& post.rooms@[rj].room_id == pre.rooms@[rj].room_id
        &&& post.rooms@[rj].data.clients@ == newm
        &&& post.rooms@[rj].data.page_url == room.page_url
        &&& post.rooms@[rj].data.allow_stop_due_to_video_loading
            == room.allow_stop_due_to_video_loading
    }
}

/// Full effect of leaving one's room: the state transition of
/// `quit_state`, plus the broadcast owed to the survivors — a snapshot
/// of the post-mutation room, or nothing if the room was deleted.
pub open spec fn quit_applied(
    pre: WsAppState,
    uid: u128,
    post: WsAppState,
    b: Option<RoomDataDto>,
) -> bool {
    let rid = (pre.spec_client(uid).room->0)@;
    let rj = pre.room_index(rid);
    let room = pre.rooms@[rj].data;
    let mi = room.spec_member_index(uid);
    &&& quit_state(pre, uid, post)
    &&& if members_after_removal(room, mi).len() == 0 {
        b is None
    } else {
        b matches Some(dto) && dto_matches(post, post.rooms@[rj].data, dto)
    }
}

/// A snapshot built against a state with the same client registry
/// projects the same names.
proof fn lemma_dto_same_clients(s1: WsAppState, s2: WsAppState, d: RoomData, dto: RoomDataDto)
    requires
        s1.clients_unique(),
        dto_matches(s1, d, dto),
        s1.clients == s2.clients,
    ensures
        dto_matches(s2, d, dto),
{
    assert forall|i: int|
        0 <= i < d.clients@.len() implies dto_client_matches(
        s2,
        d.clients@[i],
        #[trigger] dto.clients@[i],
    ) by {
        assert(dto_client_matches(s1, d.clients@[i], dto.clients@[i]));
        let u = d.clients@[i].uid;
        assert(s2.has_client(u) == s1.has_client(u));
        if s1.has_client(u) {
            let i1 = s1.client_index(u);
            let i2 = s2.client_index(u);
            assert(0 <= i1 < s1.clients@.len() && s1.clients@[i1].uid == u);
            assert(0 <= i2 < s2.clients@.len() && s2.clients@[i2].uid == u);
            assert(i1 == i2);
        }
    }
}

/// Leaving a room preserves the registry-wide invariant.
proof fn lemma_quit_wf(pre: WsAppState, uid: u128, post: WsAppState)
    requires
        pre.wf(),
        pre.has_client(uid),
        pre.spec_client(uid).room is Some,
        quit_state(pre, uid, post),
    ensures
        post.wf(),
{
    let ci = pre.client_index(uid);
    let rid = (pre.spec_client(uid).room->0)@;
    let rj = pre.room_index(rid);
    let room = pre.rooms@[rj].data;
    let mi = room.spec_member_index(uid);
    let rest = room.clients@.remove(mi);
    let newm = members_after_removal(room, mi);

    assert(0 <= ci < pre.clients@.len() && pre.clients@[ci].uid == uid);
    assert(pre.has_room(rid) && pre.spec_room(rid).spec_has_member(uid));
    assert(0 <= rj < pre.rooms@.len() && pre.rooms@[rj].room_id@ == rid);
    assert(0 <= mi < room.clients@.len() && room.clients@[mi].uid == uid);
    room.clients@.remove_ensures(mi);

    // uid occurs in no other room, and in no entry of `rest`.
    assert forall|j: int|
        0 <= j < pre.rooms@.len() && j != rj implies !(#[trigger] pre.rooms@[j]).data.spec_has_member(
        uid,
    ) by {
        if pre.rooms@[j].data.spec_has_member(uid) {
            let k = choose|k: int|
                0 <= k < pre.rooms@[j].data.clients@.len() && (#[trigger] pre.rooms@[j].data.clients@[k]).uid
                    == uid;
            assert(pre.rooms@[j].data.clients@[k].uid == uid);
            assert(pre.rooms@[j].room_id@ == rid);
            assert(j == rj);
        }
    }
    assert forall|k: int| 0 <= k < rest.len() implies (#[trigger] rest[k]).uid != uid by {
        if k < mi {
            assert(rest[k] == room.clients@[k]);
        } else {
            assert(rest[k] == room.clients@[k + 1]);
        }
    }
    assert(newm.len() == rest.len());
    assert forall|k: int| 0 <= k < newm.len() implies (#[trigger] newm[k]).uid == rest[k].uid by {}

    // each pre client other than uid keeps its profile; each pre room
    // other than rj keeps its value (modulo index shift on deletion).
    if newm.len() == 0 {
        assert(post.rooms@.len() == pre.rooms@.len() - 1);
        pre.rooms@.remove_ensures(rj);
    }

    // rooms_unique and rooms_wf
    assert forall|i: int, j: int|
        0 <= i < j < post.rooms@.len() implies (#[trigger] post.rooms@[i]).room_id@ != (
    #[trigger] post.rooms@[j]).room_id@ by {
        if newm.len() == 0 {
            let oi = if i < rj { i } else { i + 1 };
            let oj = if j < rj { j } else { j + 1 };
            assert(post.rooms@[i] == pre.rooms@[oi]);
            assert(post.rooms@[j] == pre.rooms@[oj]);
        } else {
            assert(pre.rooms@[i].room_id@ != pre.rooms@[j].room_id@);
            assert(post.rooms@[i].room_id@ == pre.rooms@[i].room_id@);
            assert(post.rooms@[j].room_id@ == pre.rooms@[j].room_id@);
        }
    }
    assert forall|j: int|
        0 <= j < post.rooms@.len() implies (#[trigger] post.rooms@[j]).data.clients@.len() > 0
        && post.rooms@[j].data.wf() by {
        if newm.len() == 0 {
            let oj = if j < rj { j } else { j + 1 };
            assert(post.rooms@[j] == pre.rooms@[oj]);
        } else {
            if j != rj {
                assert(post.rooms@[j] == pre.rooms@[j]);
            } else {
                // membership uniqueness of the updated list
                assert(room.wf());
                assert forall|a: int, b: int|
                    0 <= a < b < newm.len() implies (#[trigger] newm[a]).uid != (
                #[trigger] newm[b]).uid by {
                    let oa = if a < mi { a } else { a + 1 };
                    let ob = if b < mi { b } else { b + 1 };
                    assert(rest[a].uid == room.clients@[oa].uid);
                    assert(rest[b].uid == room.clients@[ob].uid);
                }
                // exactly one owner in the updated list
                assert(room.one_owner());
                let oi = choose|i: int|
                    0 <= i < room.clients@.len() && (#[trigger] room.clients@[i]).owner;
                if room.clients@[mi].owner {
                    assert(newm[0].owner);
                    assert forall|k: int| 0 < k < newm.len() implies !(#[trigger] newm[k]).owner by {
                        let ok = if k < mi { k } else { k + 1 };
                        assert(rest[k] == room.clients@[ok]);
                        assert(oi == mi);
                    }
                    assert(post.rooms@[j].data.one_owner());
                } else {
                    let ni = if oi < mi { oi } else { oi - 1 };
                    assert(rest[ni] == room.clients@[oi]);
                    assert(newm == rest);
                    assert(newm[ni].owner);
                    assert forall|k: int|
                        0 <= k < newm.len() && k != ni implies !(#[trigger] newm[k]).owner by {
                        let ok = if k < mi { k } else { k + 1 };
                        assert(rest[k] == room.clients@[ok]);
                    }
                    assert(post.rooms@[j].data.one_owner());
                }
            }
        }
    }

    // clients_unique
    assert forall|i: int, j: int|
        0 <= i < j < post.clients@.len() implies (#[trigger] post.clients@[i]).uid != (
    #[trigger] post.clients@[j]).uid by {
        assert(post.clients@[i].uid == pre.clients@[i].uid);
        assert(post.clients@[j].uid == pre.clients@[j].uid);
    }

    // client_rooms_linked
    assert forall|i: int|
        0 <= i < post.clients@.len() implies match (#[trigger] post.clients@[i]).data.room {
        Some(rid2) => post.has_room(rid2@) && post.spec_room(rid2@).spec_has_member(
            post.clients@[i].uid,
        ),
        None => forall|j: int|
            0 <= j < post.rooms@.len() ==> !(#[trigger] post.rooms@[j]).data.spec_has_member(
                post.clients@[i].uid,
            ),
    } by {
        if i == ci {
            // uid now references no room and is a member of none.
            assert forall|j: int|
                0 <= j < post.rooms@.len() implies !(#[trigger] post.rooms@[j]).data.spec_has_member(
                uid,
            ) by {
                if newm.len() == 0 {
                    let oj = if j < rj { j } else { j + 1 };
                    assert(post.rooms@[j] == pre.rooms@[oj]);
                    assert(!pre.rooms@[oj].data.spec_has_member(uid));
                } else {
                    if j != rj {
                        assert(post.rooms@[j] == pre.rooms@[j]);
                        assert(!pre.rooms@[j].data.spec_has_member(uid));
                    } else {
                        if post.rooms@[j].data.spec_has_member(uid) {
                            let k = choose|k: int|
                                0 <= k < newm.len() && (#[trigger] newm[k]).uid == uid;
                            assert(newm[k].uid == rest[k].uid);
                            assert(false);
                        }
                    }
                }
            }
        } else {
            assert(post.clients@[i] == pre.clients@[i]);
            let cu = pre.clients@[i].uid;
            assert(cu != uid);
            match pre.clients@[i].data.room {
                Some(rid2) => {
                    assert(pre.has_room(rid2@));
                    let oj = pre.room_index(rid2@);
                    assert(0 <= oj < pre.rooms@.len() && pre.rooms@[oj].room_id@ == rid2@);
                    assert(pre.rooms@[oj].data.spec_has_member(cu));
                    if oj == rj {
                        // member of the touched room: it survives, since
                        // `cu` remains a member after `uid` left.
                        let k = choose|k: int|
                            0 <= k < room.clients@.len() && (#[trigger] room.clients@[k]).uid == cu;
                        assert(k != mi);
                        let nk = if k < mi { k } else { k - 1 };
                        assert(rest[nk].uid == cu);
                        assert(newm.len() > 0);
                        assert(newm[nk].uid == cu);
                        assert(post.rooms@[rj].room_id@ == rid2@);
                        assert(post.has_room(rid2@));
                        let pj = post.room_index(rid2@);
                        assert(post.rooms@[pj].room_id@ == rid2@);
                        assert(pj == rj);
                        assert(post.spec_room(rid2@).spec_has_member(cu));
                    } else {
                        assert(rid2@ != rid);
                        let pj: int = if newm.len() == 0 {
                            if oj < rj {
                                oj
                            } else {
                                oj - 1
                            }
                        } else {
                            oj
                        };
                        assert(post.rooms@[pj] == pre.rooms@[oj]);
                        assert(post.has_room(rid2@));
                        let qj = post.room_index(rid2@);
                        assert(post.rooms@[qj].room_id@ == rid2@);
                        assert(qj == pj);
                        assert(post.spec_room(rid2@).spec_has_member(cu));
                    }
                },
                None => {
                    assert forall|j: int|
                        0 <= j < post.rooms@.len() implies !(
                    #[trigger] post.rooms@[j]).data.spec_has_member(cu) by {
                        let oj = if newm.len() == 0 && j >= rj {
                            j + 1
                        } else {
                            j
                        };
                        if newm.len() > 0 && j == rj {
                            if post.rooms@[j].data.spec_has_member(cu) {
                                let k = choose|k: int|
                                    0 <= k < newm.len() && (#[trigger] newm[k]).uid == cu;
                                let ok = if k < mi {
                                    k
                                } else {
                                    k + 1
                                };
                                assert(rest[k].uid == room.clients@[ok].uid);
                                assert(pre.rooms@[rj].data.spec_has_member(cu));
                                assert(false);
                            }
                        } else {
                            assert(post.rooms@[j] == pre.rooms@[oj]);
                            assert(!pre.rooms@[oj].data.spec_has_member(cu));
                        }
                    }
                },
            }
        }
    }

    // room_members_linked
    assert forall|j: int, k: int|
        0 <= j < post.rooms@.len() && 0 <= k < post.rooms@[j].data.clients@.len() implies ({
        let m_uid = (#[trigger] post.rooms@[j].data.clients@[k]).uid;
        post.has_client(m_uid) && (match post.spec_client(m_uid).room {
            Some(rid2) => rid2@ == post.rooms@[j].room_id@,
            None => false,
        })
    }) by {
        let m_uid = post.rooms@[j].data.clients@[k].uid;
        let oj = if newm.len() == 0 && j >= rj {
            j + 1
        } else {
            j
        };
        // locate the membership in the pre state
        if newm.len() > 0 && j == rj {
            assert(newm[k].uid == rest[k].uid);
            let ok = if k < mi {
                k
            } else {
                k + 1
            };
            assert(rest[k].uid == room.clients@[ok].uid);
            assert(pre.rooms@[rj].data.clients@[ok].uid == m_uid);
            assert(pre.has_client(m_uid));
        } else {
            assert(post.rooms@[j] == pre.rooms@[oj]);
            assert(pre.rooms@[oj].data.clients@[k].uid == m_uid);
            assert(pre.has_client(m_uid));
        }
        assert(m_uid != uid);
        let pi = pre.client_index(m_uid);
        assert(0 <= pi < pre.clients@.len() && pre.clients@[pi].uid == m_uid);
        assert(pi != ci);
        assert(post.clients@[pi] == pre.clients@[pi]);
        assert(post.has_client(m_uid));
        let qi = post.client_index(m_uid);
        assert(post.clients@[qi].uid == m_uid);
        assert(qi == pi);
        assert(post.spec_client(m_uid) == pre.spec_client(m_uid));
        assert(post.rooms@[j].room_id@ == pre.rooms@[oj].room_id@);
        match pre.spec_client(m_uid).room {
            Some(rid2) => {
                assert(rid2@ == pre.rooms@[oj].room_id@);
            },
            None => {
                assert(false);
            },
        }
    }
}

/// Removes the client's membership from its current room, clears the
/// client's room reference, transfers ownership to the earliest-joined
/// remaining member if the owner left, and deletes the room if it
/// became empty. Returns the snapshot owed to the survivors, if any.
/// The caller must have checked that the client is in a room.
pub fn handle_quit_room(state: &mut WsAppState, current_uid: u128) -> (b: Option<RoomDataDto>)
    requires
        old(state).wf(),
        old(state).has_client(current_uid),
        old(state).spec_client(current_uid).room is Some,
    ensures
        final(state).wf(),
        quit_applied(*old(state), current_uid, *final(state), b),
{
    let ghost pre = *old(state);
    let ci = match state.find_client_index(current_uid) {
        Some(i) => i,
        None => unreached(),
    };
    proof {
        assert(pre.client_index(current_uid) == ci);
    }
    let removed = state.clients.remove(ci);
    let Client { uid: removed_uid, data: removed_data } = removed;
    let ClientData { name: removed_name, room: removed_room } = removed_data;
    let room_id: String = match removed_room {
        Some(r) => r,
        None => unreached(),
    };
    state.clients.insert(ci, Client {
        uid: removed_uid,
        data: ClientData { name: removed_name, room: None },
    });
    proof {
        pre.clients@.remove_ensures(ci as int);
        pre.clients@.remove(ci as int).insert_ensures(
            ci as int,
            state.clients@[ci as int],
        );
        assert(clients_same_except(pre, *state, ci as int));
        assert(room_id@ == (pre.spec_client(current_uid).room->0)@);
        assert(pre.has_room(room_id@));
        assert(state.rooms@ == pre.rooms@);
    }
    let rj = match state.find_room_index(&room_id) {
        Some(j) => j,
        None => unreached(),
    };
    proof {
        assert(pre.room_index(room_id@) == rj);
        assert(pre.spec_room(room_id@).spec_has_member(current_uid));
    }
    let mut room = state.rooms.remove(rj);
    proof {
        assert(room.data == pre.rooms@[rj as int].data);
        assert(room.data.wf());
    }
    room.data.remove_client(current_uid);
    proof {
        assert(pre.rooms@[rj as int].data.spec_member_index(current_uid)
            == pre.spec_room(room_id@).spec_member_index(current_uid));
        assert(room.data.clients@ == members_after_removal(
            pre.rooms@[rj as int].data,
            pre.rooms@[rj as int].data.spec_member_index(current_uid),
        ));
    }
    if room.data.clients.len() == 0 {
        proof {
            lemma_quit_wf(pre, current_uid, *state);
        }
        None
    } else {
        let dto = RoomDataDto::from(&room.data, state);
        let ghost mid = *state;
        state.rooms.insert(rj, room);
        proof {
            pre.rooms@.remove_ensures(rj as int);
            pre.rooms@.remove(rj as int).insert_ensures(rj as int, state.rooms@[rj as int]);
            assert(rooms_same_except(pre, *state, rj as int));
            lemma_quit_wf(pre, current_uid, *state);
            lemma_dto_same_clients(mid, *state, state.rooms@[rj as int].data, dto);
        }
        Some(dto)
    }
}

/// Runs the same membership-removal effect as an explicit quit for a
/// departing connection (if the client is in a room), then removes the
/// client from the registry. Safe to call for a client that was already
/// removed. Returns the snapshot owed to the survivors, if any.
pub fn handle_client_disconnect(state: &mut WsAppState, current_uid: u128) -> (b: Option<
    RoomDataDto,
>)
    requires
        old(state).wf(),
    ensures
        final(state).wf(),
        !final(state).has_client(current_uid),
        !old(state).has_client(current_uid) ==> *final(state) == *old(state) && b is None,
        old(state).has_client(current_uid) && old(state).spec_client(current_uid).room is None
            ==> final(state).clients@ == old(state).clients@.remove(
            old(state).client_index(current_uid),
        ) && final(state).rooms@ == old(state).rooms@ && b is None,
        old(state).has_client(current_uid) && old(state).spec_client(current_uid).room is Some
            ==> exists|mid: WsAppState|
            {
                &&& #[trigger] quit_applied(*old(state), current_uid, mid, b)
                &&& final(state).clients@ == mid.clients@.remove(
                    old(state).client_index(current_uid),
                )
                &&& final(state).rooms@ == mid.rooms@
            },
{
    let ghost pre = *old(state);
    let ci = match state.find_client_index(current_uid) {
        Some(i) => i,
        None => {
            return None;
        },
    };
    proof {
        assert(pre.client_index(current_uid) == ci);
    }
    let in_room = state.clients[ci].data.room.is_some();
    let b = if in_room {
        handle_quit_room(state, current_uid)
    } else {
        None
    };
    let ghost mid = *state;
    proof {
        assert(mid.clients@[ci as int].uid == current_uid);
        assert(mid.client_index(current_uid) == ci);
        assert(mid.spec_client(current_uid).room is None);
    }
    state.clients.remove(ci);
    proof {
        lemma_unregister_wf(mid, current_uid, *state);
    }
    b
}

/// Removing a client that is a member of no room preserves the
/// registry-wide invariant and leaves the client unregistered.
proof fn lemma_unregister_wf(pre: WsAppState, uid: u128, post: WsAppState)
    requires
        pre.wf(),
        pre.has_client(uid),
        pre.spec_client(uid).room is None,
        post.clients@ == pre.clients@.remove(pre.client_index(uid)),
        post.rooms@ == pre.rooms@,
    ensures
        post.wf(),
        !post.has_client(uid),
{
    let ci = pre.client_index(uid);
    assert(0 <= ci < pre.clients@.len() && pre.clients@[ci].uid == uid);
    pre.clients@.remove_ensures(ci);
    assert forall|i: int| 0 <= i < post.clients@.len() implies (#[trigger] post.clients@[i]).uid
        != uid by {
        let oi = if i < ci {
            i
        } else {
            i + 1
        };
        assert(post.clients@[i] == pre.clients@[oi]);
    }
    assert forall|i: int, j: int|
        0 <= i < j < post.clients@.len() implies (#[trigger] post.clients@[i]).uid != (
    #[trigger] post.clients@[j]).uid by {
        let oi = if i < ci {
            i
        } else {
            i + 1
        };
        let oj = if j < ci {
            j
        } else {
            j + 1
        };
        assert(post.clients@[i] == pre.clients@[oi]);
        assert(post.clients@[j] == pre.clients@[oj]);
    }
    assert forall|i: int|
        0 <= i < post.clients@.len() implies match (#[trigger] post.clients@[i]).data.room {
        Some(rid2) => post.has_room(rid2@) && post.spec_room(rid2@).spec_has_member(
            post.clients@[i].uid,
        ),
        None => forall|j: int|
            0 <= j < post.rooms@.len() ==> !(#[trigger] post.rooms@[j]).data.spec_has_member(
                post.clients@[i].uid,
            ),
    } by {
        let oi = if i < ci {
            i
        } else {
            i + 1
        };
        assert(post.clients@[i] == pre.clients@[oi]);
        match pre.clients@[oi].data.room {
            Some(rid2) => {
                assert(pre.has_room(rid2@));
                let oj = pre.room_index(rid2@);
                assert(post.rooms@[oj] == pre.rooms@[oj]);
                assert(post.has_room(rid2@));
                let qj = post.room_index(rid2@);
                assert(post.rooms@[qj].room_id@ == rid2@);
                assert(qj == oj);
                assert(post.spec_room(rid2@).spec_has_member(post.clients@[i].uid));
            },
            None => {},
        }
    }
    assert forall|j: int, k: int|
        0 <= j < post.rooms@.len() && 0 <= k < post.rooms@[j].data.clients@.len() implies ({
        let m_uid = (#[trigger] post.rooms@[j].data.clients@[k]).uid;
        post.has_client(m_uid) && (match post.spec_client(m_uid).room {
            Some(rid2) => rid2@ == post.rooms@[j].room_id@,
            None => false,
        })
    }) by {
        let m_uid = post.rooms@[j].data.clients@[k].uid;
        assert(pre.rooms@[j].data.clients@[k].uid == m_uid);
        assert(pre.has_client(m_uid));
        assert(m_uid != uid);
        let pi = pre.client_index(m_uid);
        assert(0 <= pi < pre.clients@.len() && pre.clients@[pi].uid == m_uid);
        assert(pi != ci);
        let ni = if pi < ci {
            pi
        } else {
            pi - 1
        };
        assert(post.clients@[ni] == pre.clients@[pi]);
        assert(post.has_client(m_uid));
        let qi = post.client_index(m_uid);
        assert(post.clients@[qi].uid == m_uid);
        assert(qi == ni);
        assert(post.spec_client(m_uid) == pre.spec_client(m_uid));
    }
}

/// Replaces the profile of the client at registry position `ci`,
/// keeping its identifier and display name, with the given room
/// reference.
fn set_client_room(state: &mut WsAppState, ci: usize, room: Option<String>)
    requires
        ci < old(state).clients@.len(),
    ensures
        clients_same_except(*old(state), *final(state), ci as int),
        final(state).clients@[ci as int].uid == old(state).clients@[ci as int].uid,
        final(state).clients@[ci as int].data.name == old(state).clients@[ci as int].data.name,
        final(state).clients@[ci as int].data.room == room,
        final(state).rooms@ == old(state).rooms@,
{
    let ghost pre = *old(state);
    let removed = state.clients.remove(ci);
    let Client { uid, data: ClientData { name, room: _ } } = removed;
    state.clients.insert(ci, Client { uid, data: ClientData { name, room } });
    proof {
        pre.clients@.remove_ensures(ci as int);
        pre.clients@.remove(ci as int).insert_ensures(ci as int, state.clients@[ci as int]);
    }
}

/// Replaces the profile of the client at registry position `ci`,
/// keeping its identifier and room reference, with the given display
/// name.
fn set_client_name(state: &mut WsAppState, ci: usize, name: Option<String>)
    requires
        ci < old(state).clients@.len(),
    ensures
        clients_same_except(*old(state), *final(state), ci as int),
        final(state).clients@[ci as int].uid == old(state).clients@[ci as int].uid,
        final(state).clients@[ci as int].data.name == name,
        final(state).clients@[ci as int].data.room == old(state).clients@[ci as int].data.room,
        final(state).rooms@ == old(state).rooms@,
{
    let ghost pre = *old(state);
    let removed = state.clients.remove(ci);
    let Client { uid, data: ClientData { name: _, room } } = removed;
    state.clients.insert(ci, Client { uid, data: ClientData { name, room } });
    proof {
        pre.clients@.remove_ensures(ci as int);
        pre.clients@.remove(ci as int).insert_ensures(ci as int, state.clients@[ci as int]);
    }
}

/// Changing one client's profile without touching its identifier or
/// its room reference preserves the registry-wide invariant.
proof fn lemma_client_profile_update_wf(pre: WsAppState, post: WsAppState, ci: int)
    requires
        pre.wf(),
        0 <= ci < pre.clients@.len(),
        clients_same_except(pre, post, ci),
        post.clients@[ci].uid == pre.clients@[ci].uid,
        post.clients@[ci].data.room == pre.clients@[ci].data.room,
        post.rooms@ == pre.rooms@,
    ensures
        post.wf(),
{
    assert forall|i: int, j: int|
        0 <= i < j < post.clients@.len() implies (#[trigger] post.clients@[i]).uid != (
    #[trigger] post.clients@[j]).uid by {
        assert(post.clients@[i].uid == pre.clients@[i].uid);
        assert(post.clients@[j].uid == pre.clients@[j].uid);
    }
    assert forall|i: int|
        0 <= i < post.clients@.len() implies match (#[trigger] post.clients@[i]).data.room {
        Some(rid2) => post.has_room(rid2@) && post.spec_room(rid2@).spec_has_member(
            post.clients@[i].uid,
        ),
        None => forall|j: int|
            0 <= j < post.rooms@.len() ==> !(#[trigger] post.rooms@[j]).data.spec_has_member(
                post.clients@[i].uid,
            ),
    } by {
        assert(post.clients@[i].uid == pre.clients@[i].uid);
        assert(post.clients@[i].data.room == pre.clients@[i].data.room);
        match pre.clients@[i].data.room {
            Some(rid2) => {
                assert(pre.has_room(rid2@));
                let oj = pre.room_index(rid2@);
                assert(0 <= oj < pre.rooms@.len() && pre.rooms@[oj].room_id@ == rid2@);
                assert(post.has_room(rid2@));
                let qj = post.room_index(rid2@);
                assert(post.rooms@[qj].room_id@ == rid2@);
                assert(qj == oj);
                assert(post.spec_room(rid2@).spec_has_member(post.clients@[i].uid));
            },
            None => {
                assert forall|j: int|
                    0 <= j < post.rooms@.len() implies !(
                #[trigger] post.rooms@[j]).data.spec_has_member(post.clients@[i].uid) by {
                    assert(post.rooms@[j] == pre.rooms@[j]);
                    assert(!pre.rooms@[j].data.spec_has_member(pre.clients@[i].uid));
                }
            },
        }
    }
    assert forall|j: int, k: int|
        0 <= j < post.rooms@.len() && 0 <= k < post.rooms@[j].data.clients@.len() implies ({
        let m_uid = (#[trigger] post.rooms@[j].data.clients@[k]).uid;
        post.has_client(m_uid) && (match post.spec_client(m_uid).room {
            Some(rid2) => rid2@ == post.rooms@[j].room_id@,
            None => false,
        })
    }) by {
        let m_uid = post.rooms@[j].data.clients@[k].uid;
        assert(pre.rooms@[j].data.clients@[k].uid == m_uid);
        assert(pre.has_client(m_uid));
        let pi = pre.client_index(m_uid);
        assert(0 <= pi < pre.clients@.len() && pre.clients@[pi].uid == m_uid);
        assert(post.clients@[pi].uid == m_uid);
        assert(post.has_client(m_uid));
        let qi = post.client_index(m_uid);
        assert(post.clients@[qi].uid == m_uid);
        assert(qi == pi);
        assert(post.spec_client(m_uid).room == pre.spec_client(m_uid).room);
    }
}

/// Updating one room's membership flags without touching any member's
/// identifier or owner flag preserves the registry-wide invariant.
proof fn lemma_room_flags_update_wf(pre: WsAppState, post: WsAppState, rj: int)
    requires
        pre.wf(),
        0 <= rj < pre.rooms@.len(),
        post.clients@ == pre.clients@,
        rooms_same_except(pre, post, rj),
        post.rooms@[rj].room_id == pre.rooms@[rj].room_id,
        post.rooms@[rj].data.clients@.len() == pre.rooms@[rj].data.clients@.len(),
        forall|k: int|
            0 <= k < pre.rooms@[rj].data.clients@.len() ==> (
            #[trigger] post.rooms@[rj].data.clients@[k]).uid
                == pre.rooms@[rj].data.clients@[k].uid && post.rooms@[rj].data.clients@[k].owner
                == pre.rooms@[rj].data.clients@[k].owner,
    ensures
        post.wf(),
{
    assert forall|i: int, j: int|
        0 <= i < j < post.rooms@.len() implies (#[trigger] post.rooms@[i]).room_id@ != (
    #[trigger] post.rooms@[j]).room_id@ by {
        assert(post.rooms@[i].room_id@ == pre.rooms@[i].room_id@);
        assert(post.rooms@[j].room_id@ == pre.rooms@[j].room_id@);
    }
    assert forall|j: int|
        0 <= j < post.rooms@.len() implies (#[trigger] post.rooms@[j]).data.clients@.len() > 0
        && post.rooms@[j].data.wf() by {
        if j != rj {
            assert(post.rooms@[j] == pre.rooms@[j]);
        } else {
            let d = post.rooms@[rj].data;
            let e = pre.rooms@[rj].data;
            assert(e.wf());
            assert forall|a: int, b: int|
                0 <= a < b < d.clients@.len() implies (#[trigger] d.clients@[a]).uid != (
            #[trigger] d.clients@[b]).uid by {
                assert(d.clients@[a].uid == e.clients@[a].uid);
                assert(d.clients@[b].uid == e.clients@[b].uid);
            }
            assert(e.one_owner());
            let oi = choose|i: int| 0 <= i < e.clients@.len() && (#[trigger] e.clients@[i]).owner;
            assert(d.clients@[oi].owner);
            assert forall|a: int, b: int|
                0 <= a < d.clients@.len() && 0 <= b < d.clients@.len() && (
            #[trigger] d.clients@[a]).owner && (#[trigger] d.clients@[b]).owner implies a == b by {
                assert(e.clients@[a].owner && e.clients@[b].owner);
            }
        }
    }
    assert forall|i: int|
        0 <= i < post.clients@.len() implies match (#[trigger] post.clients@[i]).data.room {
        Some(rid2) => post.has_room(rid2@) && post.spec_room(rid2@).spec_has_member(
            post.clients@[i].uid,
        ),
        None => forall|j: int|
            0 <= j < post.rooms@.len() ==> !(#[trigger] post.rooms@[j]).data.spec_has_member(
                post.clients@[i].uid,
            ),
    } by {
        assert(post.clients@[i] == pre.clients@[i]);
        match pre.clients@[i].data.room {
            Some(rid2) => {
                assert(pre.has_room(rid2@));
                let oj = pre.room_index(rid2@);
                assert(0 <= oj < pre.rooms@.len() && pre.rooms@[oj].room_id@ == rid2@);
                assert(post.rooms@[oj].room_id@ == rid2@);
                assert(post.has_room(rid2@));
                let qj = post.room_index(rid2@);
                assert(post.rooms@[qj].room_id@ == rid2@);
                assert(qj == oj);
                assert(pre.rooms@[oj].data.spec_has_member(pre.clients@[i].uid));
                let k = choose|k: int|
                    0 <= k < pre.rooms@[oj].data.clients@.len() && (
                    #[trigger] pre.rooms@[oj].data.clients@[k]).uid == pre.clients@[i].uid;
                assert(post.rooms@[oj].data.clients@[k].uid == pre.clients@[i].uid);
                assert(post.spec_room(rid2@).spec_has_member(post.clients@[i].uid));
            },
            None => {
                assert forall|j: int|
                    0 <= j < post.rooms@.len() implies !(
                #[trigger] post.rooms@[j]).data.spec_has_member(post.clients@[i].uid) by {
                    assert(!pre.rooms@[j].data.spec_has_member(pre.clients@[i].uid));
                    if post.rooms@[j].data.spec_has_member(post.clients@[i].uid) {
                        let k = choose|k: int|
                            0 <= k < post.rooms@[j].data.clients@.len() && (
                            #[trigger] post.rooms@[j].data.clients@[k]).uid
                                == post.clients@[i].uid;
                        assert(pre.rooms@[j].data.clients@[k].uid == pre.clients@[i].uid);
                        assert(false);
                    }
                }
            },
        }
    }
    assert forall|j: int, k: int|
        0 <= j < post.rooms@.len() && 0 <= k < post.rooms@[j].data.clients@.len() implies ({
        let m_uid = (#[trigger] post.rooms@[j].data.clients@[k]).uid;
        post.has_client(m_uid) && (match post.spec_client(m_uid).room {
            Some(rid2) => rid2@ == post.rooms@[j].room_id@,
            None => false,
        })
    }) by {
        let m_uid = post.rooms@[j].data.clients@[k].uid;
        assert(pre.rooms@[j].data.clients@[k].uid == m_uid);
        assert(pre.has_client(m_uid));
        let pi = pre.client_index(m_uid);
        assert(0 <= pi < pre.clients@.len() && pre.clients@[pi].uid == m_uid);
        assert(post.has_client(m_uid));
        let qi = post.client_index(m_uid);
        assert(post.clients@[qi].uid == m_uid);
        assert(qi == pi);
        assert(post.spec_client(m_uid).room == pre.spec_client(m_uid).room);
        assert(post.rooms@[j].room_id@ == pre.rooms@[j].room_id@);
    }
}

/// Joining an existing room as a plain member preserves the
/// registry-wide invariant.
proof fn lemma_join_existing_wf(pre: WsAppState, post: WsAppState, uid: u128, rid: Seq<char>)
    requires
        pre.wf(),
        pre.has_client(uid),
        pre.spec_client(uid).room is None,
        pre.has_room(rid),
        ({
            let ci = pre.client_index(uid);
            let rj = pre.room_index(rid);
            &&& clients_same_except(pre, post, ci)
            &&& post.clients@[ci].uid == uid
            &&& post.clients@[ci].data.room matches Some(r) && r@ == rid
            &&& rooms_same_except(pre, post, rj)
            &&& post.rooms@[rj].room_id == pre.rooms@[rj].room_id
            &&& post.rooms@[rj].data.clients@ == pre.rooms@[rj].data.clients@.push(
                (RoomClient { uid, owner: false, admin: false }),
            )
        }),
    ensures
        post.wf(),
{
    let ci = pre.client_index(uid);
    let rj = pre.room_index(rid);
    let room = pre.rooms@[rj].data;
    let n = room.clients@.len() as int;
    assert(0 <= ci < pre.clients@.len() && pre.clients@[ci].uid == uid);
    assert(0 <= rj < pre.rooms@.len() && pre.rooms@[rj].room_id@ == rid);
    // uid is a member of no pre room
    assert forall|j: int|
        0 <= j < pre.rooms@.len() implies !(#[trigger] pre.rooms@[j]).data.spec_has_member(uid) by {}

    assert forall|i: int, j: int|
        0 <= i < j < post.clients@.len() implies (#[trigger] post.clients@[i]).uid != (
    #[trigger] post.clients@[j]).uid by {
        assert(post.clients@[i].uid == pre.clients@[i].uid);
        assert(post.clients@[j].uid == pre.clients@[j].uid);
    }
    assert forall|i: int, j: int|
        0 <= i < j < post.rooms@.len() implies (#[trigger] post.rooms@[i]).room_id@ != (
    #[trigger] post.rooms@[j]).room_id@ by {
        assert(post.rooms@[i].room_id@ == pre.rooms@[i].room_id@);
        assert(post.rooms@[j].room_id@ == pre.rooms@[j].room_id@);
    }
    assert forall|j: int|
        0 <= j < post.rooms@.len() implies (#[trigger] post.rooms@[j]).data.clients@.len() > 0
        && post.rooms@[j].data.wf() by {
        if j != rj {
            assert(post.rooms@[j] == pre.rooms@[j]);
        } else {
            let d = post.rooms@[rj].data;
            assert(room.wf());
            assert(d.clients@.len() == n + 1);
            assert forall|a: int, b: int|
                0 <= a < b < d.clients@.len() implies (#[trigger] d.clients@[a]).uid != (
            #[trigger] d.clients@[b]).uid by {
                if b < n {
                    assert(d.clients@[a] == room.clients@[a]);
                    assert(d.clients@[b] == room.clients@[b]);
                } else {
                    assert(d.clients@[b].uid == uid);
                    assert(d.clients@[a] == room.clients@[a]);
                    assert(!room.spec_has_member(uid));
                }
            }
            assert(room.one_owner());
            let oi = choose|i: int|
                0 <= i < room.clients@.len() && (#[trigger] room.clients@[i]).owner;
            assert(d.clients@[oi].owner);
            assert forall|a: int, b: int|
                0 <= a < d.clients@.len() && 0 <= b < d.clients@.len() && (
            #[trigger] d.clients@[a]).owner && (#[trigger] d.clients@[b]).owner implies a == b by {
                assert(a < n && b < n) by {
                    assert(!d.clients@[n].owner);
                }
                assert(room.clients@[a].owner && room.clients@[b].owner);
            }
        }
    }
    assert forall|i: int|
        0 <= i < post.clients@.len() implies match (#[trigger] post.clients@[i]).data.room {
        Some(rid2) => post.has_room(rid2@) && post.spec_room(rid2@).spec_has_member(
            post.clients@[i].uid,
        ),
        None => forall|j: int|
            0 <= j < post.rooms@.len() ==> !(#[trigger] post.rooms@[j]).data.spec_has_member(
                post.clients@[i].uid,
            ),
    } by {
        if i == ci {
            assert(post.clients@[ci].data.room matches Some(r) && r@ == rid);
            assert(post.rooms@[rj].room_id@ == rid);
            assert(post.has_room(rid));
            let qj = post.room_index(rid);
            assert(post.rooms@[qj].room_id@ == rid);
            assert(qj == rj);
            assert(post.rooms@[rj].data.clients@[n].uid == uid);
            assert(post.spec_room(rid).spec_has_member(uid));
        } else {
            assert(post.clients@[i] == pre.clients@[i]);
            let cu = pre.clients@[i].uid;
            assert(cu != uid);
            match pre.clients@[i].data.room {
                Some(rid2) => {
                    assert(pre.has_room(rid2@));
                    let oj = pre.room_index(rid2@);
                    assert(0 <= oj < pre.rooms@.len() && pre.rooms@[oj].room_id@ == rid2@);
                    assert(post.rooms@[oj].room_id@ == rid2@);
                    assert(post.has_room(rid2@));
                    let qj = post.room_index(rid2@);
                    assert(post.rooms@[qj].room_id@ == rid2@);
                    assert(qj == oj);
                    assert(pre.rooms@[oj].data.spec_has_member(cu));
                    let k = choose|k: int|
                        0 <= k < pre.rooms@[oj].data.clients@.len() && (
                        #[trigger] pre.rooms@[oj].data.clients@[k]).uid == cu;
                    assert(post.rooms@[oj].data.clients@[k].uid == cu);
                    assert(post.spec_room(rid2@).spec_has_member(cu));
                },
                None => {
                    assert forall|j: int|
                        0 <= j < post.rooms@.len() implies !(
                    #[trigger] post.rooms@[j]).data.spec_has_member(cu) by {
                        assert(!pre.rooms@[j].data.spec_has_member(cu));
                        if post.rooms@[j].data.spec_has_member(cu) {
                            let k = choose|k: int|
                                0 <= k < post.rooms@[j].data.clients@.len() && (
                                #[trigger] post.rooms@[j].data.clients@[k]).uid == cu;
                            if j == rj && k == n {
                                assert(false);
                            } else {
                                assert(pre.rooms@[j].data.clients@[k].uid == cu);
                                assert(false);
                            }
                        }
                    }
                },
            }
        }
    }
    assert forall|j: int, k: int|
        0 <= j < post.rooms@.len() && 0 <= k < post.rooms@[j].data.clients@.len() implies ({
        let m_uid = (#[trigger] post.rooms@[j].data.clients@[k]).uid;
        post.has_client(m_uid) && (match post.spec_client(m_uid).room {
            Some(rid2) => rid2@ == post.rooms@[j].room_id@,
            None => false,
        })
    }) by {
        let m_uid = post.rooms@[j].data.clients@[k].uid;
        if j == rj && k == n {
            assert(m_uid == uid);
            assert(post.clients@[ci].uid == uid);
            assert(post.has_client(uid));
            let qi = post.client_index(uid);
            assert(post.clients@[qi].uid == uid);
            assert(qi == ci);
            assert(post.spec_client(uid).room matches Some(r) && r@ == rid);
            assert(post.rooms@[rj].room_id@ == rid);
        } else {
            assert(pre.rooms@[j].data.clients@[k].uid == m_uid);
            assert(pre.has_client(m_uid));
            assert(m_uid != uid);
            let pi = pre.client_index(m_uid);
            assert(0 <= pi < pre.clients@.len() && pre.clients@[pi].uid == m_uid);
            assert(pi != ci);
            assert(post.clients@[pi] == pre.clients@[pi]);
            assert(post.has_client(m_uid));
            let qi = post.client_index(m_uid);
            assert(post.clients@[qi].uid == m_uid);
            assert(qi == pi);
            assert(post.spec_client(m_uid) == pre.spec_client(m_uid));
            assert(post.rooms@[j].room_id@ == pre.rooms@[j].room_id@);
        }
    }
}

/// Creating a fresh room whose sole member is the joining client
/// preserves the registry-wide invariant.
proof fn lemma_create_room_wf(pre: WsAppState, post: WsAppState, uid: u128, rid: Seq<char>)
    requires
        pre.wf(),
        pre.has_client(uid),
        pre.spec_client(uid).room is None,
        !pre.has_room(rid),
        ({
            let ci = pre.client_index(uid);
            &&& clients_same_except(pre, post, ci)
            &&& post.clients@[ci].uid == uid
            &&& post.clients@[ci].data.room matches Some(r) && r@ == rid
            &&& post.rooms@.len() == pre.rooms@.len() + 1
            &&& forall|j: int| 0 <= j < pre.rooms@.len() ==> #[trigger] post.rooms@[j]
                == pre.rooms@[j]
            &&& post.rooms@[pre.rooms@.len() as int].room_id@ == rid
            &&& post.rooms@[pre.rooms@.len() as int].data.clients@ == seq![
                (RoomClient { uid, owner: true, admin: true }),
            ]
        }),
    ensures
        post.wf(),
{
    let ci = pre.client_index(uid);
    let n = pre.rooms@.len() as int;
    assert(0 <= ci < pre.clients@.len() && pre.clients@[ci].uid == uid);
    assert forall|j: int|
        0 <= j < pre.rooms@.len() implies !(#[trigger] pre.rooms@[j]).data.spec_has_member(uid) by {}

    assert forall|i: int, j: int|
        0 <= i < j < post.clients@.len() implies (#[trigger] post.clients@[i]).uid != (
    #[trigger] post.clients@[j]).uid by {
        assert(post.clients@[i].uid == pre.clients@[i].uid);
        assert(post.clients@[j].uid == pre.clients@[j].uid);
    }
    assert forall|i: int, j: int|
        0 <= i < j < post.rooms@.len() implies (#[trigger] post.rooms@[i]).room_id@ != (
    #[trigger] post.rooms@[j]).room_id@ by {
        if j < n {
            assert(post.rooms@[i] == pre.rooms@[i]);
            assert(post.rooms@[j] == pre.rooms@[j]);
        } else {
            assert(post.rooms@[i] == pre.rooms@[i]);
            assert(post.rooms@[j].room_id@ == rid);
            assert(pre.has_room(pre.rooms@[i].room_id@));
        }
    }
    assert forall|j: int|
        0 <= j < post.rooms@.len() implies (#[trigger] post.rooms@[j]).data.clients@.len() > 0
        && post.rooms@[j].data.wf() by {
        if j < n {
            assert(post.rooms@[j] == pre.rooms@[j]);
        } else {
            let d = post.rooms@[n].data;
            assert(d.clients@.len() == 1);
            assert(d.clients@[0].owner);
        }
    }
    assert forall|i: int|
        0 <= i < post.clients@.len() implies match (#[trigger] post.clients@[i]).data.room {
        Some(rid2) => post.has_room(rid2@) && post.spec_room(rid2@).spec_has_member(
            post.clients@[i].uid,
        ),
        None => forall|j: int|
            0 <= j < post.rooms@.len() ==> !(#[trigger] post.rooms@[j]).data.spec_has_member(
                post.clients@[i].uid,
            ),
    } by {
        if i == ci {
            assert(post.rooms@[n].room_id@ == rid);
            assert(post.has_room(rid));
            let qj = post.room_index(rid);
            assert(post.rooms@[qj].room_id@ == rid);
            assert(qj == n) by {
                if qj < n {
                    assert(post.rooms@[qj] == pre.rooms@[qj]);
                    assert(pre.has_room(rid));
                }
            }
            assert(post.rooms@[n].data.clients@[0].uid == uid);
            assert(post.spec_room(rid).spec_has_member(uid));
        } else {
            assert(post.clients@[i] == pre.clients@[i]);
            let cu = pre.clients@[i].uid;
            assert(cu != uid);
            match pre.clients@[i].data.room {
                Some(rid2) => {
                    assert(pre.has_room(rid2@));
                    let oj = pre.room_index(rid2@);
                    assert(0 <= oj < pre.rooms@.len() && pre.rooms@[oj].room_id@ == rid2@);
                    assert(post.rooms@[oj].room_id@ == rid2@);
                    assert(post.has_room(rid2@));
                    let qj = post.room_index(rid2@);
                    assert(post.rooms@[qj].room_id@ == rid2@);
                    assert(qj == oj) by {
                        if qj == n {
                            assert(rid2@ == rid);
                            assert(pre.has_room(rid));
                        }
                    }
                    assert(pre.rooms@[oj].data.spec_has_member(cu));
                    assert(post.spec_room(rid2@).spec_has_member(cu));
                },
                None => {
                    assert forall|j: int|
                        0 <= j < post.rooms@.len() implies !(
                    #[trigger] post.rooms@[j]).data.spec_has_member(cu) by {
                        if j < n {
                            assert(post.rooms@[j] == pre.rooms@[j]);
                            assert(!pre.rooms@[j].data.spec_has_member(cu));
                        } else {
                            if post.rooms@[j].data.spec_has_member(cu) {
                                let k = choose|k: int|
                                    0 <= k < post.rooms@[j].data.clients@.len() && (
                                    #[trigger] post.rooms@[j].data.clients@[k]).uid == cu;
                                assert(post.rooms@[j].data.clients@[k].uid == uid);
                                assert(false);
                            }
                        }
                    }
                },
            }
        }
    }
    assert forall|j: int, k: int|
        0 <= j < post.rooms@.len() && 0 <= k < post.rooms@[j].data.clients@.len() implies ({
        let m_uid = (#[trigger] post.rooms@[j].data.clients@[k]).uid;
        post.has_client(m_uid) && (match post.spec_client(m_uid).room {
            Some(rid2) => rid2@ == post.rooms@[j].room_id@,
            None => false,
        })
    }) by {
        let m_uid = post.rooms@[j].data.clients@[k].uid;
        if j == n {
            assert(m_uid == uid);
            assert(post.clients@[ci].uid == uid);
            assert(post.has_client(uid));
            let qi = post.client_index(uid);
            assert(post.clients@[qi].uid == uid);
            assert(qi == ci);
            assert(post.spec_client(uid).room matches Some(r) && r@ == rid);
        } else {
            assert(post.rooms@[j] == pre.rooms@[j]);
            assert(pre.rooms@[j].data.clients@[k].uid == m_uid);
            assert(pre.has_client(m_uid));
            assert(m_uid != uid);
            let pi = pre.client_index(m_uid);
            assert(0 <= pi < pre.clients@.len() && pre.clients@[pi].uid == m_uid);
            assert(pi != ci);
            assert(post.clients@[pi] == pre.clients@[pi]);
            assert(post.has_client(m_uid));
            let qi = post.client_index(m_uid);
            assert(post.clients@[qi].uid == m_uid);
            assert(qi == pi);
            assert(post.spec_client(m_uid) == pre.spec_client(m_uid));
        }
    }
}

/// Outcome of `ChangeName`: a display name of one or two characters is
/// rejected with `ClientNameTooShort` and changes nothing; a longer
/// name is stored on the client's profile and, if the client is in a
/// room, a snapshot of that room (with the new name) is broadcast.
pub open spec fn change_name_post(
    pre: WsAppState,
    uid: u128,
    new_name: String,
    post: WsAppState,
    out: DispatchOutcome,
) -> bool {
    if new_name@.len() <= 2 {
        &&& post == pre
        &&& out.reply == (OutgoingMessage::Error {
            kind: ErrorKind::ClientNameTooShort,
            msg: None,
        })
        &&& out.broadcasts@.len() == 0
    } else {
        let ci = pre.client_index(uid);
        &&& clients_same_except(pre, post, ci)
        &&& post.clients@[ci].uid == uid
        &&& post.clients@[ci].data.name == Some(new_name)
        &&& post.clients@[ci].data.room == pre.clients@[ci].data.room
        &&& post.rooms@ == pre.rooms@
        &&& out.reply == OutgoingMessage::Success
        &&& match pre.spec_client(uid).room {
            Some(rid) => {
                &&& out.broadcasts@.len() == 1
                &&& post.has_room(rid@)
                &&& dto_matches(post, post.spec_room(rid@), out.broadcasts@[0])
            },
            None => out.broadcasts@.len() == 0,
        }
    }
}

/// Applies `ChangeName` for the client `current_uid`.
pub fn handle_change_name(state: &mut WsAppState, current_uid: u128, new_name: String) -> (out:
    DispatchOutcome)
    requires
        old(state).wf(),
        old(state).has_client(current_uid),
    ensures
        final(state).wf(),
        change_name_post(*old(state), current_uid, new_name, *final(state), out),
{
    let ghost pre = *old(state);
    if new_name.as_str().unicode_len() <= 2 {
        return DispatchOutcome {
            reply: OutgoingMessage::Error { kind: ErrorKind::ClientNameTooShort, msg: None },
            broadcasts: Vec::new(),
        };
    }
    let ci = match state.find_client_index(current_uid) {
        Some(i) => i,
        None => unreached(),
    };
    proof {
        assert(pre.client_index(current_uid) == ci);
    }
    set_client_name(state, ci, Some(new_name));
    proof {
        lemma_client_profile_update_wf(pre, *state, ci as int);
    }
    let mut broadcasts: Vec<RoomDataDto> = Vec::new();
    let room_id_opt: Option<String> = match &state.clients[ci].data.room {
        Some(r) => Some(r.clone()),
        None => None,
    };
    match room_id_opt {
        Some(room_id) => {
            proof {
                assert(pre.spec_client(current_uid).room is Some);
                assert(room_id@ == (pre.spec_client(current_uid).room->0)@);
                assert(pre.has_room(room_id@));
                assert(state.rooms@ == pre.rooms@);
            }
            let rj = match state.find_room_index(&room_id) {
                Some(j) => j,
                None => unreached(),
            };
            let dto = RoomDataDto::from(&state.rooms[rj].data, state);
            proof {
                assert(state.room_index(room_id@) == rj);
                assert(state.spec_room(room_id@) == state.rooms@[rj as int].data);
            }
            broadcasts.push(dto);
        },
        None => {
            proof {
                assert(pre.spec_client(current_uid).room is None);
            }
        },
    }
    DispatchOutcome { reply: OutgoingMessage::Success, broadcasts }
}

/// State transition of granting or revoking the admin flag: only the
/// target's membership entry changes, and only its admin flag.
pub open spec fn admin_status_applied(
    pre: WsAppState,
    uid: u128,
    target_uid: u128,
    admin: bool,
    post: WsAppState,
) -> bool {
    let rid = (pre.spec_client(uid).room->0)@;
    let rj = pre.room_index(rid);
    let room = pre.rooms@[rj].data;
    let ti = room.spec_member_index(target_uid);
    &&& post.clients@ == pre.clients@
    &&& rooms_same_except(pre, post, rj)
    &&& post.rooms@[rj].room_id == pre.rooms@[rj].room_id
    &&& post.rooms@[rj].data.clients@ == room.clients@.update(
        ti,
        (RoomClient { uid: target_uid, owner: room.clients@[ti].owner, admin: admin }),
    )
    &&& post.rooms@[rj].data.page_url == room.page_url
    &&& post.rooms@[rj].data.allow_stop_due_to_video_loading
        == room.allow_stop_due_to_video_loading
}

/// Outcome of `ChangeClientAdminStatus`: rejected with
/// `ClientNotInAnyRoom` if the caller is in no room, with `Forbidden`
/// (and no mutation at all) if the caller is not the owner, and with
/// `NoSuchClient` if the target is not a member of the caller's room;
/// otherwise the target's admin flag is set and the room broadcast.
pub open spec fn admin_status_post(
    pre: WsAppState,
    uid: u128,
    target_uid: u128,
    admin: bool,
    post: WsAppState,
    out: DispatchOutcome,
) -> bool {
    let rid = (pre.spec_client(uid).room->0)@;
    if pre.spec_client(uid).room is None {
        &&& post == pre
        &&& out.reply == (OutgoingMessage::Error {
            kind: ErrorKind::ClientNotInAnyRoom,
            msg: None,
        })
        &&& out.broadcasts@.len() == 0
    } else if !pre.spec_room(rid).spec_member(uid).owner {
        &&& post == pre
        &&& out.reply == (OutgoingMessage::Error { kind: ErrorKind::Forbidden, msg: None })
        &&& out.broadcasts@.len() == 0
    } else if !pre.spec_room(rid).spec_has_member(target_uid) {
        &&& post == pre
        &&& out.reply == (OutgoingMessage::Error { kind: ErrorKind::NoSuchClient, msg: None })
        &&& out.broadcasts@.len() == 0
    } else {
        &&& admin_status_applied(pre, uid, target_uid, admin, post)
        &&& out.reply == OutgoingMessage::Success
        &&& out.broadcasts@.len() == 1
        &&& dto_matches(post, post.rooms@[pre.room_index(rid)].data, out.broadcasts@[0])
    }
}

/// Applies `ChangeClientAdminStatus` for the client `current_uid`,
/// targeting `client_uid`.
pub fn handle_change_admin_status(
    state: &mut WsAppState,
    current_uid: u128,
    client_uid: u128,
    admin: bool,
) -> (out: DispatchOutcome)
    requires
        old(state).wf(),
        old(state).has_client(current_uid),
    ensures
        final(state).wf(),
        admin_status_post(*old(state), current_uid, client_uid, admin, *final(state), out),
{
    let ghost pre = *old(state);
    let ci = match state.find_client_index(current_uid) {
        Some(i) => i,
        None => unreached(),
    };
    proof {
        assert(pre.client_index(current_uid) == ci);
    }
    let room_id: String = match &state.clients[ci].data.room {
        Some(r) => r.clone(),
        None => {
            return DispatchOutcome {
                reply: OutgoingMessage::Error { kind: ErrorKind::ClientNotInAnyRoom, msg: None },
                broadcasts: Vec::new(),
            };
        },
    };
    proof {
        assert(room_id@ == (pre.spec_client(current_uid).room->0)@);
        assert(pre.has_room(room_id@));
    }
    let rj = match state.find_room_index(&room_id) {
        Some(j) => j,
        None => unreached(),
    };
    proof {
        assert(pre.room_index(room_id@) == rj);
        assert(pre.spec_room(room_id@) == pre.rooms@[rj as int].data);
        assert(pre.rooms@[rj as int].data.wf());
        assert(pre.rooms@[rj as int].data.spec_has_member(current_uid));
    }
    let is_owner = match state.rooms[rj].data.find_room_client(current_uid) {
        Some(rc) => rc.owner,
        None => unreached(),
    };
    if !is_owner {
        return DispatchOutcome {
            reply: OutgoingMessage::Error { kind: ErrorKind::Forbidden, msg: None },
            broadcasts: Vec::new(),
        };
    }
    let ti = match state.rooms[rj].data.find_member_index(client_uid) {
        Some(t) => t,
        None => {
            return DispatchOutcome {
                reply: OutgoingMessage::Error { kind: ErrorKind::NoSuchClient, msg: None },
                broadcasts: Vec::new(),
            };
        },
    };
    proof {
        assert(pre.rooms@[rj as int].data.spec_member_index(client_uid) == ti);
    }
    let mut room = state.rooms.remove(rj);
    let entry = room.data.clients[ti];
    room.data.clients.set(ti, RoomClient { uid: entry.uid, owner: entry.owner, admin });
    let dto = RoomDataDto::from(&room.data, state);
    let ghost mid = *state;
    state.rooms.insert(rj, room);
    proof {
        pre.rooms@.remove_ensures(rj as int);
        pre.rooms@.remove(rj as int).insert_ensures(rj as int, state.rooms@[rj as int]);
        assert(rooms_same_except(pre, *state, rj as int));
        lemma_room_flags_update_wf(pre, *state, rj as int);
        lemma_dto_same_clients(mid, *state, state.rooms@[rj as int].data, dto);
    }
    let mut broadcasts: Vec<RoomDataDto> = Vec::new();
    broadcasts.push(dto);
    DispatchOutcome { reply: OutgoingMessage::Success, broadcasts }
}

/// State transition of joining the room with id `rid` from a state in
/// which the joining client is in no room, together with the snapshot
/// broadcast to the target room: an existing room gains a plain
/// membership at the end of its list; a fresh id creates a room whose
/// sole member is the joining client, flagged owner and admin.
pub open spec fn join_applied(
    pre: WsAppState,
    uid: u128,
    rid: Seq<char>,
    post: WsAppState,
    dto: RoomDataDto,
) -> bool {
    let ci = pre.client_index(uid);
    &&& clients_same_except(pre, post, ci)
    &&& post.clients@[ci].uid == uid
    &&& post.clients@[ci].data.name == pre.clients@[ci].data.name
    &&& post.clients@[ci].data.room matches Some(r) && r@ == rid
    &&& if pre.has_room(rid) {
        let rj = pre.room_index(rid);
        let room = pre.rooms@[rj].data;
        &&& rooms_same_except(pre, post, rj)
        &&& post.rooms@[rj].room_id == pre.rooms@[rj].room_id
        &&& post.rooms@[rj].data.clients@ == room.clients@.push(
            (RoomClient { uid, owner: false, admin: false }),
        )
        &&& post.rooms@[rj].data.page_url == room.page_url
        &&& post.rooms@[rj].data.allow_stop_due_to_video_loading
            == room.allow_stop_due_to_video_loading
        &&& dto_matches(post, post.rooms@[rj].data, dto)
    } else {
        let n = pre.rooms@.len() as int;
        &&& post.rooms@.len() == n + 1
        &&& forall|j: int| 0 <= j < n ==> #[trigger] post.rooms@[j] == pre.rooms@[j]
        &&& post.rooms@[n].room_id@ == rid
        &&& post.rooms@[n].data.clients@ == seq![(RoomClient { uid, owner: true, admin: true })]
        &&& post.rooms@[n].data.page_url is None
        &&& post.rooms@[n].data.allow_stop_due_to_video_loading == true
        &&& dto_matches(post, post.rooms@[n].data, dto)
    }
}

/// Outcome of `JoinRoom`: rejected with `ClientNameNotSet` before any
/// successful `ChangeName`, and with `RoomIdTooShort` for an id of one
/// or two characters, in both cases without creating or joining
/// anything. Otherwise the client leaves its current room first (with
/// the full effect of a quit, broadcast included) and then joins or
/// creates the target room, whose snapshot is broadcast last.
pub open spec fn join_room_post(
    pre: WsAppState,
    uid: u128,
    room_id: String,
    post: WsAppState,
    out: DispatchOutcome,
) -> bool {
    if pre.spec_client(uid).name is None {
        &&& post == pre
        &&& out.reply == (OutgoingMessage::Error { kind: ErrorKind::ClientNameNotSet, msg: None })
        &&& out.broadcasts@.len() == 0
    } else if room_id@.len() <= 2 {
        &&& post == pre
        &&& out.reply == (OutgoingMessage::Error { kind: ErrorKind::RoomIdTooShort, msg: None })
        &&& out.broadcasts@.len() == 0
    } else if pre.spec_client(uid).room is Some {
        exists|mid: WsAppState, b0: Option<RoomDataDto>|
            {
                &&& #[trigger] quit_applied(pre, uid, mid, b0)
                &&& join_applied(mid, uid, room_id@, post, out.broadcasts@.last())
                &&& out.reply == OutgoingMessage::Success
                &&& match b0 {
                    Some(d) => out.broadcasts@.len() == 2 && out.broadcasts@[0] == d,
                    None => out.broadcasts@.len() == 1,
                }
            }
    } else {
        &&& join_applied(pre, uid, room_id@, post, out.broadcasts@.last())
        &&& out.reply == OutgoingMessage::Success
        &&& out.broadcasts@.len() == 1
    }
}

/// Applies `JoinRoom` for the client `current_uid`.
#[verifier::rlimit(60)]
pub fn handle_join_room(state: &mut WsAppState, current_uid: u128, room_id: String) -> (out:
    DispatchOutcome)
    requires
        old(state).wf(),
        old(state).has_client(current_uid),
    ensures
        final(state).wf(),
        join_room_post(*old(state), current_uid, room_id, *final(state), out),
{
    let ghost pre = *old(state);
    let ghost rid: Seq<char> = room_id@;
    let ci = match state.find_client_index(current_uid) {
        Some(i) => i,
        None => unreached(),
    };
    proof {
        assert(pre.client_index(current_uid) == ci);
    }
    if state.clients[ci].data.name.is_none() {
        return DispatchOutcome {
            reply: OutgoingMessage::Error { kind: ErrorKind::ClientNameNotSet, msg: None },
            broadcasts: Vec::new(),
        };
    }
    if room_id.as_str().unicode_len() <= 2 {
        return DispatchOutcome {
            reply: OutgoingMessage::Error { kind: ErrorKind::RoomIdTooShort, msg: None },
            broadcasts: Vec::new(),
        };
    }
    let mut broadcasts: Vec<RoomDataDto> = Vec::new();
    let ghost was_in_room = pre.spec_client(current_uid).room is Some;
    let in_room = state.clients[ci].data.room.is_some();
    if in_room {
        match handle_quit_room(state, current_uid) {
            Some(d) => broadcasts.push(d),
            None => {},
        }
    }
    let ghost b0: Option<RoomDataDto> = if broadcasts@.len() == 1 {
        Some(broadcasts@[0])
    } else {
        None
    };
    let ghost mid = *state;
    proof {
        if was_in_room {
            assert(quit_applied(pre, current_uid, mid, b0));
        } else {
            assert(mid == pre);
        }
        assert(mid.clients@[ci as int].uid == current_uid);
        assert(mid.client_index(current_uid) == ci);
        assert(mid.spec_client(current_uid).room is None);
        assert(mid.spec_client(current_uid).name == pre.spec_client(current_uid).name);
    }
    let out = match state.find_room_index(&room_id) {
        Some(rj) => {
            proof {
                assert(mid.room_index(rid) == rj);
                assert(!mid.rooms@[rj as int].data.spec_has_member(current_uid));
            }
            set_client_room(state, ci, Some(room_id));
            let mut room = state.rooms.remove(rj);
            room.data.add_client(current_uid);
            let dto = RoomDataDto::from(&room.data, state);
            let ghost mid2 = *state;
            state.rooms.insert(rj, room);
            proof {
                mid.rooms@.remove_ensures(rj as int);
                mid.rooms@.remove(rj as int).insert_ensures(rj as int, state.rooms@[rj as int]);
                assert(rooms_same_except(mid, *state, rj as int));
                lemma_join_existing_wf(mid, *state, current_uid, rid);
                lemma_dto_same_clients(mid2, *state, state.rooms@[rj as int].data, dto);
                assert(join_applied(mid, current_uid, rid, *state, dto));
            }
            broadcasts.push(dto);
            DispatchOutcome { reply: OutgoingMessage::Success, broadcasts }
        },
        None => {
            proof {
                assert(!mid.has_room(rid));
            }
            let id_for_room = room_id.clone();
            set_client_room(state, ci, Some(room_id));
            let room = Room::new_with_owner(id_for_room, current_uid);
            let dto = RoomDataDto::from(&room.data, state);
            let ghost mid2 = *state;
            state.rooms.push(room);
            proof {
                lemma_create_room_wf(mid, *state, current_uid, rid);
                lemma_dto_same_clients(
                    mid2,
                    *state,
                    state.rooms@[mid.rooms@.len() as int].data,
                    dto,
                );
                assert(join_applied(mid, current_uid, rid, *state, dto));
            }
            broadcasts.push(dto);
            DispatchOutcome { reply: OutgoingMessage::Success, broadcasts }
        },
    };
    proof {
        assert(out.broadcasts@.last() == out.broadcasts@[out.broadcasts@.len() - 1]);
        if was_in_room {
            assert(quit_applied(pre, current_uid, mid, b0));
            assert(join_applied(mid, current_uid, rid, *state, out.broadcasts@.last()));
        }
    }
    out
}

/// Outcome of `QuitRoom`: rejected with `ClientNotInAnyRoom` if the
/// client is in no room; otherwise the full quit effect of
/// `quit_applied`, a `Success` reply, and the survivors' snapshot as
/// the only broadcast (none if the room was deleted).
pub open spec fn quit_room_post(
    pre: WsAppState,
    uid: u128,
    post: WsAppState,
    out: DispatchOutcome,
) -> bool {
    if pre.spec_client(uid).room is None {
        &&& post == pre
        &&& out.reply == (OutgoingMessage::Error {
            kind: ErrorKind::ClientNotInAnyRoom,
            msg: None,
        })
        &&& out.broadcasts@.len() == 0
    } else {
        &&& out.reply == OutgoingMessage::Success
        &&& out.broadcasts@.len() <= 1
        &&& quit_applied(
            pre,
            uid,
            post,
            if out.broadcasts@.len() == 1 {
                Some(out.broadcasts@[0])
            } else {
                None
            },
        )
    }
}

/// Outcome of one dispatched command, by command.
pub open spec fn dispatch_post(
    pre: WsAppState,
    uid: u128,
    msg: IncomingMessage,
    post: WsAppState,
    out: DispatchOutcome,
) -> bool {
    match msg {
        IncomingMessage::Ping => {
            &&& post == pre
            &&& out.reply == OutgoingMessage::Pong
            &&& out.broadcasts@.len() == 0
        },
        IncomingMessage::ChangeName { new_name } => change_name_post(
            pre,
            uid,
            new_name,
            post,
            out,
        ),
        IncomingMessage::JoinRoom { room_id } => join_room_post(pre, uid, room_id, post, out),
        IncomingMessage::ChangeClientAdminStatus { client_uid, admin } => admin_status_post(
            pre,
            uid,
            client_uid,
            admin,
            post,
            out,
        ),
        IncomingMessage::QuitRoom => quit_room_post(pre, uid, post, out),
    }
}

/// Validates one inbound command against the current registries and
/// applies it. Commands of one connection are dispatched strictly in
/// arrival order; the caller delivers `out.reply` to the originating
/// client and each snapshot in `out.broadcasts` to every member listed
/// inside it.
pub fn dispatch_message(state: &mut WsAppState, current_uid: u128, msg: IncomingMessage) -> (out:
    DispatchOutcome)
    requires
        old(state).wf(),
        old(state).has_client(current_uid),
    ensures
        final(state).wf(),
        dispatch_post(*old(state), current_uid, msg, *final(state), out),
{
    match msg {
        IncomingMessage::Ping => DispatchOutcome {
            reply: OutgoingMessage::Pong,
            broadcasts: Vec::new(),
        },
        IncomingMessage::ChangeName { new_name } => handle_change_name(
            state,
            current_uid,
            new_name,
        ),
        IncomingMessage::JoinRoom { room_id } => handle_join_room(state, current_uid, room_id),
        IncomingMessage::ChangeClientAdminStatus { client_uid, admin } => handle_change_admin_status(
            state,
            current_uid,
            client_uid,
            admin,
        ),
        IncomingMessage::QuitRoom => {
            let ghost pre = *old(state);
            let ci = match state.find_client_index(current_uid) {
                Some(i) => i,
                None => unreached(),
            };
            proof {
                assert(pre.client_index(current_uid) == ci);
            }
            if state.clients[ci].data.room.is_none() {
                DispatchOutcome {
                    reply: OutgoingMessage::Error {
                        kind: ErrorKind::ClientNotInAnyRoom,
                        msg: None,
                    },
                    broadcasts: Vec::new(),
                }
            } else {
                let b = handle_quit_room(state, current_uid);
                let mut broadcasts: Vec<RoomDataDto> = Vec::new();
                match b {
                    Some(d) => broadcasts.push(d),
                    None => {},
                }
                DispatchOutcome { reply: OutgoingMessage::Success, broadcasts }
            }
        },
    }
}

} // verus!
