//! The user triples one post record contributes to ingestion.
//!
//! A record parser (an external collaborator) reduces each structured post to
//! the fields below; the selection of which users a post contributes is the
//! logic here. A post names its author; a post that re-shares another names,
//! one level deep, the re-shared post's author and the users that post
//! mentions. Mentions of the outer post itself are not taken.

use vstd::prelude::*;

verus! {

/// A user as a post names one.
#[derive(Debug, PartialEq, Eq)]
pub struct UserInfo {
    pub id: u64,
    pub screen_name: String,
    pub name: String,
}

/// The re-shared post's contributing fields.
#[derive(Debug, PartialEq, Eq)]
pub struct RetweetedStatus {
    pub user: Option<UserInfo>,
    pub mentions: Vec<UserInfo>,
}

/// One post record, reduced to its contributing fields.
#[derive(Debug, PartialEq, Eq)]
pub struct Status {
    pub user: Option<UserInfo>,
    pub retweeted: Option<RetweetedStatus>,
}

pub open spec fn opt_user(u: Option<UserInfo>) -> Seq<UserInfo> {
    match u {
        Some(x) => seq![x],
        None => Seq::empty(),
    }
}

/// The users one record contributes, in contribution order.
pub open spec fn status_users_spec(s: Status) -> Seq<UserInfo> {
    opt_user(s.user) + match s.retweeted {
        Some(rt) => opt_user(rt.user) + rt.mentions@,
        None => Seq::empty(),
    }
}

/// Collects the users one record contributes: the author, then for a
/// re-sharing post the re-shared author and that post's mentions.
pub fn status_users(s: Status) -> (users: Vec<UserInfo>)
    ensures
        users@ == status_users_spec(s),
{
    let ghost s0 = s;
    let mut users: Vec<UserInfo> = Vec::new();
    let Status { user, retweeted } = s;
    match user {
        Some(u) => {
            users.push(u);
        },
        None => {},
    }
    match retweeted {
        Some(rt) => {
            let RetweetedStatus { user: rt_user, mentions } = rt;
            let mut mentions = mentions;
            match rt_user {
                Some(u) => {
                    users.push(u);
                },
                None => {},
            }
            users.append(&mut mentions);
        },
        None => {},
    }
    proof {
        assert(users@ =~= status_users_spec(s0));
    }
    users
}

} // verus!
