use vstd::prelude::*;

verus! {

/// The key of a stored record.
pub type PrimaryKey = i32;

/// A user to create.
#[derive(Debug, Clone)]
pub struct NewUser {
    pub username: String,
    pub password: String,
    pub display_name: String,
    pub superuser: bool,
}

/// Changes to a user.
#[derive(Debug, Clone)]
pub struct UpdatedUser {
    pub id: PrimaryKey,
    pub display_name: Option<String>,
}

/// A session to create; it expires at `expires_at`, in seconds since the
/// Unix epoch (UTC).
#[derive(Debug, Clone)]
pub struct NewSession {
    pub token: String,
    pub user_id: PrimaryKey,
    pub expires_at: i64,
}

/// A room to create, owned by `user_id`.
#[derive(Debug, Clone)]
pub struct NewRoom {
    pub slug: String,
    pub title: String,
    pub description: String,
    pub user_id: PrimaryKey,
}

/// Changes to a room.
#[derive(Debug, Clone)]
pub struct UpdatedRoom {
    pub id: PrimaryKey,
    pub title: Option<String>,
    pub description: Option<String>,
}

/// A member to add to a room.
#[derive(Debug, Clone, Copy, PartialEq, Eq, Structural)]
pub struct NewRoomMember {
    pub user_id: PrimaryKey,
    pub room_id: PrimaryKey,
    pub owner: bool,
}

/// An invite to a room, made by `user_id`.
#[derive(Debug, Clone, Copy, PartialEq, Eq, Structural)]
pub struct NewRoomInvite {
    pub room_id: PrimaryKey,
    pub user_id: PrimaryKey,
}

/// A stream key to create.
#[derive(Debug, Clone)]
pub struct NewStreamKey {
    pub token: String,
    pub room_id: PrimaryKey,
    pub user_id: PrimaryKey,
    pub source: String,
}

} // verus!
