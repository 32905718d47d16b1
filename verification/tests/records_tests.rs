//! Exercises the record-to-users selection logic.

use at_twitter_stream::records::{RetweetedStatus, Status, UserInfo};

fn user(id: u64, screen_name: &str, name: &str) -> UserInfo {
    UserInfo { id, screen_name: screen_name.to_string(), name: name.to_string() }
}

#[test]
fn plain_post_contributes_its_author() {
    let status = Status { user: Some(user(860973241569071104, "gorgartweets", "GORGAR")), retweeted: None };
    let users = at_twitter_stream::records::status_users(status);
    assert_eq!(users, vec![user(860973241569071104, "gorgartweets", "GORGAR")]);
}

#[test]
fn reshared_post_contributes_author_and_mentions() {
    let status = Status {
        user: Some(user(1, "outer", "Outer")),
        retweeted: Some(RetweetedStatus {
            user: Some(user(2, "inner", "Inner")),
            mentions: vec![user(3, "m1", "MentionOne"), user(4, "m2", "MentionTwo")],
        }),
    };
    let users = at_twitter_stream::records::status_users(status);
    assert_eq!(
        users,
        vec![
            user(1, "outer", "Outer"),
            user(2, "inner", "Inner"),
            user(3, "m1", "MentionOne"),
            user(4, "m2", "MentionTwo"),
        ]
    );
}

#[test]
fn missing_fields_contribute_nothing() {
    let status = Status { user: None, retweeted: Some(RetweetedStatus { user: None, mentions: vec![] }) };
    let users = at_twitter_stream::records::status_users(status);
    assert_eq!(users, Vec::<UserInfo>::new());
}
