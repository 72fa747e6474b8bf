use dl_authorize::effect::Effect;
use dl_authorize::policy::Policy;
use dl_authorize::request::{Principal, Request, RequestResourceBuilder};
use dl_authorize::statement::{Identity, Statement, StatementIdentity, StatementResource};

fn sample_policy() -> Policy {
    let mut policy = Policy::default();
    policy.add_statement(Statement::new(
        Effect::Allow,
        vec![StatementIdentity::Identity(Identity::Principal(
            Principal::new(vec![4u8]),
        ))],
        vec!["call".to_string(), "read".to_string()],
        vec![
            StatementResource::Resource("Foo".to_string()),
            StatementResource::Resource("Store".to_string()).add_nested_resources(vec![
                StatementResource::Resource("Bucket".to_string())
                    .add_nested(StatementResource::Resource("Key".to_string())),
                StatementResource::Resource("Bucket".to_string())
                    .add_nested(StatementResource::Resource("Other".to_string())),
            ]),
        ],
    ));
    policy.add_statement(Statement::new(
        Effect::Deny,
        vec![StatementIdentity::Any],
        vec!["write".to_string()],
        vec![StatementResource::Resource("Store".to_string())],
    ));
    policy
}

fn requests() -> Vec<Request> {
    vec![
        Request::new(
            "call".to_string(),
            RequestResourceBuilder::new("Foo").build(),
            Principal::new(vec![4u8]),
        ),
        Request::new(
            "read".to_string(),
            RequestResourceBuilder::new("Store")
                .add("Bucket")
                .add("Key")
                .build(),
            Principal::new(vec![4u8]),
        ),
        Request::new(
            "write".to_string(),
            RequestResourceBuilder::new("Store").build(),
            Principal::new(vec![9u8, 9u8]),
        ),
        Request::new(
            "call".to_string(),
            RequestResourceBuilder::new("Bar").build(),
            Principal::new(vec![4u8]),
        ),
    ]
}

#[test]
fn round_trip_preserves_every_decision() {
    let policy = sample_policy();
    let bytes = policy.to_bytes();
    let back = Policy::from_bytes(bytes.as_slice()).unwrap();
    for request in requests() {
        assert!(policy.get_effect(&request) == back.get_effect(&request));
    }
}

#[test]
fn round_trip_of_the_empty_policy() {
    let policy = Policy::default();
    let bytes = policy.to_bytes();
    let back = Policy::from_bytes(bytes.as_slice()).unwrap();
    for request in requests() {
        assert!(back.get_effect(&request) == Effect::Deny);
    }
}

#[test]
fn truncated_bytes_are_rejected() {
    let policy = sample_policy();
    let bytes = policy.to_bytes();
    let truncated = &bytes[..bytes.len() - 1];
    assert!(Policy::from_bytes(truncated).is_none());
    assert!(Policy::from_bytes(&bytes[..3]).is_none());
    assert!(Policy::from_bytes(&[]).is_none());
}

#[test]
fn trailing_bytes_are_rejected() {
    let policy = sample_policy();
    let mut bytes = policy.to_bytes();
    bytes.push(0u8);
    assert!(Policy::from_bytes(bytes.as_slice()).is_none());
}

#[test]
fn a_bad_tag_is_rejected() {
    let policy = sample_policy();
    let mut bytes = policy.to_bytes();
    // the first byte after the statement count is the effect tag
    bytes[8] = 7u8;
    assert!(Policy::from_bytes(bytes.as_slice()).is_none());
}
