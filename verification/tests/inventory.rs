//! Tools and their names.
use smg::annotations::ToolAnnotations;
use smg::inventory::{
    AliasTarget, ArgMapping, QualifiedToolName, TenantId, Tool, ToolCategory, ToolEntry,
    ALIAS_SERVER_KEY,
};
use std::time::{Duration, Instant};

fn create_test_tool(name: &str) -> Tool {
    Tool {
        name: name.to_string(),
        description: format!("Test tool: {name}"),
        input_schema: serde_json::from_str("{\"type\":\"object\",\"properties\":{}}").unwrap(),
    }
}

fn wait(time: Duration) {
    let start = Instant::now();
    while start.elapsed() < time {}
}

#[test]
fn test_qualified_tool_name() {
    let name = QualifiedToolName::new("server", "tool");
    assert_eq!(name.server_key(), "server");
    assert_eq!(name.tool_name(), "tool");
    assert_eq!(name.display(), "server:tool");
}

#[test]
fn test_qualified_tool_name_parse() {
    let parsed = QualifiedToolName::parse("brave:web_search").unwrap();
    assert_eq!(parsed.server_key(), "brave");
    assert_eq!(parsed.tool_name(), "web_search");

    assert!(QualifiedToolName::parse("no_colon").is_none());
}

#[test]
fn test_tool_entry_creation() {
    let tool = create_test_tool("my_tool");
    let entry = ToolEntry::from_server_tool("my_server", tool);

    assert_eq!(entry.server_key(), "my_server");
    assert_eq!(entry.tool_name(), "my_tool");
    assert_eq!(entry.category, ToolCategory::Static);
    assert!(!entry.is_expired());
}

#[test]
fn test_tool_entry_with_alias() {
    let tool = create_test_tool("web_search");
    let target = AliasTarget::new(QualifiedToolName::new("brave", "brave_web_search"));
    let entry = ToolEntry::from_server_tool("aliases", tool).with_alias(target);

    assert_eq!(entry.category, ToolCategory::Alias);
    assert!(entry.alias_target.is_some());
    assert_eq!(
        entry.alias_target.unwrap().target.tool_name(),
        "brave_web_search"
    );
}

#[test]
fn test_tool_entry_expiration() {
    let tool = create_test_tool("expiring_tool");
    let entry = ToolEntry::from_server_tool("server", tool)
        .with_ttl(Duration::from_millis(1).as_nanos());

    // Should not be expired immediately
    assert!(!entry.is_expired());

    // After waiting, should be expired
    wait(Duration::from_millis(5));
    assert!(entry.is_expired());
}

#[test]
fn test_arg_mapping() {
    let mapping = ArgMapping::new()
        .with_rename("query".to_string(), "search_query".to_string())
        .with_default("limit".to_string(), serde_json::Value::from(10));

    assert_eq!(mapping.renames.len(), 1);
    assert_eq!(mapping.defaults.len(), 1);
}

#[test]
fn a_name_is_split_at_the_first_colon() {
    let parsed = QualifiedToolName::parse("a:b:c").unwrap();
    assert_eq!(parsed.server_key(), "a");
    assert_eq!(parsed.tool_name(), "b:c");
    assert_eq!(parsed.display(), "a:b:c");
    let bare = QualifiedToolName::parse(":").unwrap();
    assert_eq!(bare.server_key(), "");
    assert_eq!(bare.tool_name(), "");
    assert!(QualifiedToolName::parse("").is_none());
}

#[test]
fn a_clone_of_a_name_is_equal() {
    let name = QualifiedToolName::new(ALIAS_SERVER_KEY, "web_search");
    assert_eq!(name.clone(), name);
    assert_eq!(name.display(), "alias:web_search");
}

#[test]
fn an_entry_is_good_up_to_its_limit() {
    let entry = ToolEntry::new(QualifiedToolName::new("s", "t"), create_test_tool("t")).with_ttl(10);
    assert!(!entry.expired_at(10));
    assert!(entry.expired_at(11));
    let lasting = ToolEntry::new(QualifiedToolName::new("s", "t"), create_test_tool("t"));
    assert!(!lasting.expired_at(u128::MAX));
    assert!(!lasting.is_expired());
}

#[test]
fn an_entry_is_built_step_by_step() {
    let entry = ToolEntry::from_server_tool("s", create_test_tool("t"))
        .with_category(ToolCategory::Builtin)
        .with_annotations(ToolAnnotations::new().with_read_only(true))
        .with_tenant(TenantId {
            id: "tenant".to_string(),
        })
        .with_arg_mapping(
            ArgMapping::default()
                .with_override("safe".to_string(), serde_json::Value::Bool(true)),
        );
    assert_eq!(entry.category, ToolCategory::Builtin);
    assert!(entry.annotations.read_only);
    assert_eq!(entry.tenant_id.as_ref().unwrap().id, "tenant");
    let mapping = entry.arg_mapping.as_ref().unwrap();
    assert_eq!(
        mapping.overrides,
        vec![("safe".to_string(), serde_json::Value::Bool(true))]
    );
    let alias = AliasTarget::new(QualifiedToolName::new("s", "t")).with_arg_mapping(
        ArgMapping::new().with_rename("a".to_string(), "b".to_string()),
    );
    assert_eq!(
        alias.arg_mapping.unwrap().renames,
        vec![("a".to_string(), "b".to_string())]
    );
}

#[test]
fn an_alias_is_equal_to_its_clone() {
    let mapping = ArgMapping::new()
        .with_rename("q".to_string(), "query".to_string())
        .with_default("n".to_string(), serde_json::Value::from(3));
    let alias = AliasTarget::new(QualifiedToolName::new("server", "tool"))
        .with_arg_mapping(mapping.clone());
    assert_eq!(alias.clone(), alias);
    assert_eq!(alias.arg_mapping, Some(mapping));
    assert_ne!(
        alias,
        AliasTarget::new(QualifiedToolName::new("server", "tool"))
    );
}
