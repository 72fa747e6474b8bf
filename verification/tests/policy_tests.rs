use dl_authorize::effect::Effect;
use dl_authorize::policy::{get_effect, Policy};
use dl_authorize::request::{Principal, Request, RequestResourceBuilder};
use dl_authorize::statement::{Identity, Statement, StatementIdentity, StatementResource};

fn anonymous() -> Principal {
    Principal::new(vec![4u8])
}

fn anonymous_statement_identity() -> StatementIdentity {
    StatementIdentity::Identity(Identity::Principal(anonymous()))
}

#[test]
pub fn it_matches_policy() {
    let mut policy = Policy::default();
    policy.add_statement(Statement::new(
        Effect::Allow,
        vec![anonymous_statement_identity()],
        vec!["call".to_string()],
        vec![StatementResource::Resource("Foo".to_string())],
    ));

    assert!(
        policy.get_effect(&Request::new(
            "call".to_string(),
            RequestResourceBuilder::new("Foo").build(),
            anonymous()
        )) == Effect::Allow
    );

    assert!(
        policy.get_effect(&Request::new(
            "call".to_string(),
            RequestResourceBuilder::new("Bar").build(),
            anonymous()
        )) == Effect::Deny
    );
}

#[test]
pub fn it_selects_least_permissive() {
    let mut policy = Policy::default();
    policy.add_statement(Statement::new(
        Effect::Deny,
        vec![anonymous_statement_identity()],
        vec!["call".to_string()],
        vec![StatementResource::Resource("Foo".to_string())],
    ));
    policy.add_statement(Statement::new(
        Effect::Allow,
        vec![anonymous_statement_identity()],
        vec!["call".to_string()],
        vec![StatementResource::Resource("Foo".to_string())],
    ));
    policy.add_statement(Statement::new(
        Effect::Allow,
        vec![anonymous_statement_identity()],
        vec!["call".to_string()],
        vec![StatementResource::Resource("Foo".to_string())
            .add_nested(StatementResource::Resource("Bar".to_string()))],
    ));

    assert!(
        policy.get_effect(&Request::new(
            "call".to_string(),
            RequestResourceBuilder::new("Foo").build(),
            anonymous()
        )) == Effect::Deny
    );

    assert!(
        policy.get_effect(&Request::new(
            "call".to_string(),
            RequestResourceBuilder::new("Foo").add("Bar").build(),
            anonymous()
        )) == Effect::Allow
    );
}

#[test]
fn an_empty_policy_denies_every_request() {
    let policy = Policy::default();
    let request = Request::new(
        "call".to_string(),
        RequestResourceBuilder::new("Foo").build(),
        anonymous(),
    );
    assert!(policy.get_effect(&request) == Effect::Deny);
    assert!(get_effect(&policy, &request) == Effect::Deny);
}

#[test]
fn statement_order_does_not_change_the_decision() {
    let deny = || {
        Statement::new(
            Effect::Deny,
            vec![anonymous_statement_identity()],
            vec!["call".to_string()],
            vec![StatementResource::Resource("Foo".to_string())],
        )
    };
    let allow = || {
        Statement::new(
            Effect::Allow,
            vec![anonymous_statement_identity()],
            vec!["call".to_string()],
            vec![StatementResource::Resource("Foo".to_string())],
        )
    };
    let mut first = Policy::default();
    first.add_statement(deny());
    first.add_statement(allow());
    let mut second = Policy::default();
    second.add_statement(allow());
    second.add_statement(deny());
    let request = Request::new(
        "call".to_string(),
        RequestResourceBuilder::new("Foo").build(),
        anonymous(),
    );
    assert!(first.get_effect(&request) == second.get_effect(&request));
    assert!(first.get_effect(&request) == Effect::Deny);
}

#[test]
fn an_identity_wildcard_matches_every_caller() {
    let mut policy = Policy::default();
    policy.add_statement(Statement::new(
        Effect::Allow,
        vec![StatementIdentity::Any],
        vec!["call".to_string()],
        vec![StatementResource::Resource("Foo".to_string())],
    ));
    let other = Principal::new(vec![1u8, 2u8, 3u8]);
    assert!(
        policy.get_effect(&Request::new(
            "call".to_string(),
            RequestResourceBuilder::new("Foo").build(),
            other
        )) == Effect::Allow
    );
    assert!(
        policy.get_effect(&Request::new(
            "call".to_string(),
            RequestResourceBuilder::new("Foo").build(),
            anonymous()
        )) == Effect::Allow
    );
}

#[test]
fn a_specific_identity_matches_only_that_caller() {
    let mut policy = Policy::default();
    policy.add_statement(Statement::new(
        Effect::Allow,
        vec![anonymous_statement_identity()],
        vec!["call".to_string()],
        vec![StatementResource::Resource("Foo".to_string())],
    ));
    let other = Principal::new(vec![1u8, 2u8, 3u8]);
    assert!(
        policy.get_effect(&Request::new(
            "call".to_string(),
            RequestResourceBuilder::new("Foo").build(),
            other
        )) == Effect::Deny
    );
    assert!(
        policy.get_effect(&Request::new(
            "call".to_string(),
            RequestResourceBuilder::new("Foo").build(),
            anonymous()
        )) == Effect::Allow
    );
}

#[test]
fn a_nested_pattern_needs_the_full_path() {
    let mut policy = Policy::default();
    policy.add_statement(Statement::new(
        Effect::Allow,
        vec![anonymous_statement_identity()],
        vec!["call".to_string()],
        vec![StatementResource::Resource("Foo".to_string())
            .add_nested(StatementResource::Resource("Bar".to_string()))],
    ));
    assert!(
        policy.get_effect(&Request::new(
            "call".to_string(),
            RequestResourceBuilder::new("Foo").build(),
            anonymous()
        )) == Effect::Deny
    );
    assert!(
        policy.get_effect(&Request::new(
            "call".to_string(),
            RequestResourceBuilder::new("Foo").add("Bar").build(),
            anonymous()
        )) == Effect::Allow
    );
}

#[test]
fn an_unlisted_action_is_denied() {
    let mut policy = Policy::default();
    policy.add_statement(Statement::new(
        Effect::Allow,
        vec![StatementIdentity::Any],
        vec!["call".to_string()],
        vec![StatementResource::Resource("Foo".to_string())],
    ));
    assert!(
        policy.get_effect(&Request::new(
            "write".to_string(),
            RequestResourceBuilder::new("Foo").build(),
            anonymous()
        )) == Effect::Deny
    );
}

#[test]
fn least_permissive_of_two_effects() {
    assert!(Effect::Deny.least(Effect::Allow) == Effect::Deny);
    assert!(Effect::Allow.least(Effect::Deny) == Effect::Deny);
    assert!(Effect::Allow.least(Effect::Allow) == Effect::Allow);
    assert!(Effect::Deny.least(Effect::Deny) == Effect::Deny);
}

#[test]
fn deny_sorts_before_allow() {
    assert!(Effect::Deny < Effect::Allow);
    assert!(!(Effect::Allow < Effect::Deny));
    assert!(Effect::Deny.partial_cmp(&Effect::Deny) == Some(std::cmp::Ordering::Equal));
    let mut effects = vec![Effect::Allow, Effect::Deny, Effect::Allow];
    effects.sort_by(|a, b| a.partial_cmp(b).unwrap());
    assert!(effects[0] == Effect::Deny);
}
