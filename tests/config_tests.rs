use fast_format::config::{Config, ConfigError, Tool};

fn tool(name: &str, globs: &[&str], cmd: &str) -> Tool {
    Tool {
        name: name.to_string(),
        includes: globs.iter().map(|s| s.to_string()).collect(),
        exclude: vec![],
        cmd: cmd.to_string(),
        args: vec!["--write".to_string()],
        check_args: None,
    }
}

fn prettier(check_args: Option<Vec<&str>>) -> Tool {
    Tool {
        name: "prettier".to_string(),
        includes: vec!["**/*.md".to_string()],
        exclude: vec![],
        cmd: "npx".to_string(),
        args: vec!["prettier".to_string(), "--write".to_string()],
        check_args: check_args.map(|v| v.iter().map(|s| s.to_string()).collect()),
    }
}

#[test]
fn test_get_args_normal_mode() {
    let tool = prettier(Some(vec!["prettier", "--check"]));
    assert_eq!(tool.get_args(false), vec!["prettier", "--write"]);
}

#[test]
fn test_get_args_check_mode_with_check_args() {
    let tool = prettier(Some(vec!["prettier", "--check"]));
    assert_eq!(tool.get_args(true), vec!["prettier", "--check"]);
}

#[test]
fn test_get_args_check_mode_without_check_args() {
    let tool = prettier(None);
    assert_eq!(tool.get_args(true), vec!["prettier", "--write"]);
}

#[test]
fn valid_config_passes() {
    let c = Config { version: 1, tools: vec![tool("prettier", &["**/*.md"], "npx")] };
    assert!(c.validate().is_ok());
}

#[test]
fn test_invalid_version() {
    let c = Config { version: 2, tools: vec![tool("test", &["**/*.rs"], "echo")] };
    assert!(matches!(c.validate(), Err(ConfigError::UnsupportedVersion(2))));
}

#[test]
fn test_empty_tools() {
    let c = Config { version: 1, tools: vec![] };
    assert!(matches!(c.validate(), Err(ConfigError::NoTools)));
}

#[test]
fn test_empty_tool_name() {
    let c = Config { version: 1, tools: vec![tool("", &["**/*.rs"], "echo")] };
    assert!(matches!(c.validate(), Err(ConfigError::EmptyToolName)));
}

#[test]
fn test_empty_include() {
    let c = Config { version: 1, tools: vec![tool("test", &[], "echo")] };
    match c.validate() {
        Err(ConfigError::NoIncludePatterns(name)) => assert_eq!(name, "test"),
        _ => panic!("expected a NoIncludePatterns error"),
    }
}

#[test]
fn test_empty_cmd() {
    let c = Config { version: 1, tools: vec![tool("test", &["**/*.rs"], "")] };
    match c.validate() {
        Err(ConfigError::EmptyCommand(name)) => assert_eq!(name, "test"),
        _ => panic!("expected an empty command error"),
    }
}

#[test]
fn first_invalid_tool_is_reported() {
    let c = Config {
        version: 1,
        tools: vec![
            tool("ok", &["**/*.rs"], "echo"),
            tool("nocmd", &["**/*.rs"], ""),
            tool("", &["**/*.rs"], "echo"),
        ],
    };
    match c.validate() {
        Err(ConfigError::EmptyCommand(name)) => assert_eq!(name, "nocmd"),
        _ => panic!("expected the second tool's error"),
    }
}

#[test]
fn version_is_checked_before_tools() {
    let c = Config { version: 99, tools: vec![] };
    assert!(matches!(c.validate(), Err(ConfigError::UnsupportedVersion(99))));
}
