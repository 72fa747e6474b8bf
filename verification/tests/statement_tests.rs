use dl_authorize::request::RequestResourceBuilder;
use dl_authorize::statement::{RequestResource, StatementResource};

#[test]
fn it_builds_a_request_resource() {
    let request_resource = RequestResourceBuilder::new("foo")
        .add("bar")
        .add("baz")
        .build();

    let expected = vec!["foo", "bar", "baz"];

    let mut current = request_resource;
    let mut idx = 0;
    loop {
        match current {
            RequestResource::Resource(v) => {
                assert!(v == expected[idx]);
                break;
            }
            RequestResource::Nested { node, next } => {
                assert_eq!(node, expected[idx]);
                idx += 1;
                current = *next.unwrap();
            }
        }
    }
    assert_eq!(idx, 2);
}

#[test]
fn it_builds_a_statement_resource() {
    let v = StatementResource::Resource("Foo".to_string())
        .add_nested(StatementResource::Resource("Bar".to_string()))
        .add_nested(
            StatementResource::Resource("Baz".to_string()).add_nested_resources(vec![
                StatementResource::Resource("Fizz".to_string()),
                StatementResource::Resource("Fuzz".to_string()),
            ]),
        );
    println!("{:?}", v);
}

#[test]
fn it_matches_a_request_to_a_statement() {
    let statement = StatementResource::Resource("Foo".to_string()).add_nested(
        StatementResource::Resource("Bar".to_string())
            .add_nested(StatementResource::Resource("Baz".to_string())),
    );
    assert!(statement.matches(
        &RequestResourceBuilder::new("Foo")
            .add("Bar")
            .add("Baz")
            .build()
    ));
    assert!(!statement.matches(
        &RequestResourceBuilder::new("Foo")
            .add("Bar")
            .add("Fizz")
            .build()
    ));
}

#[test]
fn it_matches_a_request_to_a_nested_statement() {
    let statement = StatementResource::Resource("Foo".to_string()).add_nested(
        StatementResource::Resource("Bar".to_string())
            .add_nested(StatementResource::Resource("Baz".to_string()))
            .add_nested(StatementResource::Resource("Fizz".to_string())),
    );
    assert!(statement.matches(
        &RequestResourceBuilder::new("Foo")
            .add("Bar")
            .add("Baz")
            .build()
    ));
    assert!(statement.matches(
        &RequestResourceBuilder::new("Foo")
            .add("Bar")
            .add("Fizz")
            .build()
    ));
}

#[test]
fn it_matches_a_request_to_a_double_nexted_statement() {
    let statement = StatementResource::Resource("Foo".to_string()).add_nested(
        StatementResource::Resource("Bar".to_string())
            .add_nested(StatementResource::Resource("Baz".to_string()))
            .add_nested(
                StatementResource::Resource("Fizz".to_string())
                    .add_nested(StatementResource::Resource("Buzz".to_string())),
            ),
    );
    assert!(statement.matches(
        &RequestResourceBuilder::new("Foo")
            .add("Bar")
            .add("Baz")
            .build()
    ));
    assert!(!statement.matches(
        &RequestResourceBuilder::new("Foo")
            .add("Bar")
            .add("Fizz")
            .build()
    ));
    assert!(statement.matches(
        &RequestResourceBuilder::new("Foo")
            .add("Bar")
            .add("Fizz")
            .add("Buzz")
            .build()
    ));
}

#[test]
fn exact_path_matching_is_not_prefix_matching() {
    let pattern = StatementResource::Resource("Foo".to_string())
        .add_nested(StatementResource::Resource("Bar".to_string()));
    assert!(pattern.matches(&RequestResourceBuilder::new("Foo").add("Bar").build()));
    assert!(!pattern.matches(&RequestResourceBuilder::new("Foo").build()));
    assert!(!pattern.matches(
        &RequestResourceBuilder::new("Foo")
            .add("Bar")
            .add("Baz")
            .build()
    ));
}

#[test]
fn branch_alternation_accepts_each_branch() {
    let pattern = StatementResource::Resource("Foo".to_string()).add_nested_resources(vec![
        StatementResource::Resource("Bar".to_string())
            .add_nested(StatementResource::Resource("Baz".to_string())),
        StatementResource::Resource("Bar".to_string())
            .add_nested(StatementResource::Resource("Fizz".to_string())),
    ]);
    assert!(pattern.matches(
        &RequestResourceBuilder::new("Foo")
            .add("Bar")
            .add("Baz")
            .build()
    ));
    assert!(pattern.matches(
        &RequestResourceBuilder::new("Foo")
            .add("Bar")
            .add("Fizz")
            .build()
    ));
    assert!(!pattern.matches(
        &RequestResourceBuilder::new("Foo")
            .add("Bar")
            .add("Buzz")
            .build()
    ));
}

#[test]
fn get_node_name_returns_the_root_segment() {
    let leaf = StatementResource::Resource("Foo".to_string());
    assert_eq!(leaf.get_node_name(), "Foo");
    let node = StatementResource::Resource("Foo".to_string())
        .add_nested(StatementResource::Resource("Bar".to_string()));
    assert_eq!(node.get_node_name(), "Foo");
}

#[test]
fn adding_no_nested_resources_keeps_a_terminal_pattern() {
    let pattern =
        StatementResource::Resource("Foo".to_string()).add_nested_resources(vec![]);
    assert!(pattern.matches(&RequestResourceBuilder::new("Foo").build()));
    assert!(!pattern.matches(&RequestResourceBuilder::new("Foo").add("Bar").build()));
}
