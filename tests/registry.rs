use command_config_parser::config::{sample_config, Command, CommandRegistry, ConfigError};

fn cmd(name: &str, aliases: &[&str], category: Option<&str>) -> Command {
    Command {
        name: name.to_string(),
        description: format!("{} command", name),
        executable: "true".to_string(),
        args: vec![],
        working_dir: None,
        env_vars: None,
        aliases: if aliases.is_empty() {
            None
        } else {
            Some(aliases.iter().map(|a| a.to_string()).collect())
        },
        category: category.map(|c| c.to_string()),
    }
}

fn load(commands: Vec<Command>) -> Result<CommandRegistry, ConfigError> {
    CommandRegistry::from_commands(commands)
}

fn sample_registry() -> CommandRegistry {
    load(sample_config().commands).unwrap()
}

#[test]
fn test_load_config_from_file() {
    let registry = sample_registry();

    assert_eq!(registry.get_all_commands().len(), 3);
    assert!(registry.get_command("build").is_some());
    assert!(registry.get_command("b").is_some()); // alias
    assert!(registry.get_command("nonexistent").is_none());
}

#[test]
fn test_completions() {
    let registry = sample_registry();

    let completions = registry.get_completions("b");
    assert!(completions.contains(&"build".to_string()));
    assert!(completions.contains(&"b".to_string()));
}

#[test]
fn test_categories() {
    let registry = sample_registry();

    let categories = registry.get_categories();
    assert!(categories.contains(&"development".to_string()));
    assert!(categories.contains(&"deployment".to_string()));

    let dev_commands = registry.get_commands_by_category("development");
    assert_eq!(dev_commands.len(), 2);
}

#[test]
fn sample_config_contents() {
    let config = sample_config();
    assert_eq!(config.version, "1.0");
    let names: Vec<&str> = config.commands.iter().map(|c| c.name.as_str()).collect();
    assert_eq!(names, vec!["build", "test", "deploy"]);
    let deploy = &config.commands[2];
    assert_eq!(deploy.args, vec!["-c".to_string(), "echo 'Deploying...'".to_string()]);
    assert_eq!(deploy.working_dir.as_deref(), Some("/opt/app"));
    let env = deploy.env_vars.as_ref().unwrap();
    assert_eq!(env.get("ENVIRONMENT").map(|v| v.as_str()), Some("production"));
}

#[test]
fn lookup_returns_declaring_record() {
    let registry = sample_registry();
    assert_eq!(registry.get_command("build").unwrap().name, "build");
    assert_eq!(registry.get_command("b").unwrap().name, "build");
    assert_eq!(registry.get_command("prod").unwrap().name, "deploy");
    assert_eq!(registry.get_command("d").unwrap().executable, "bash");
    assert!(registry.get_command("unknown").is_none());
    assert!(registry.get_command("").is_none());
    assert!(registry.get_command("Build").is_none());
}

#[test]
fn duplicate_name_is_rejected() {
    let result = load(vec![cmd("build", &[], None), cmd("build", &[], None)]);
    match result {
        Err(ConfigError::DuplicateName(name)) => assert_eq!(name, "build"),
        other => panic!("unexpected result: {:?}", other.map(|_| ())),
    }
}

#[test]
fn alias_equal_to_name_is_rejected() {
    let result = load(vec![cmd("b", &[], None), cmd("build", &["b"], None)]);
    match result {
        Err(ConfigError::DuplicateAlias(alias)) => assert_eq!(alias, "b"),
        other => panic!("unexpected result: {:?}", other.map(|_| ())),
    }
}

#[test]
fn alias_equal_to_own_name_is_rejected() {
    let result = load(vec![cmd("x", &["x"], None)]);
    assert!(matches!(result, Err(ConfigError::DuplicateAlias(ref a)) if a == "x"));
}

#[test]
fn alias_repeated_is_rejected() {
    let result = load(vec![cmd("one", &["o"], None), cmd("other", &["p", "o"], None)]);
    assert!(matches!(result, Err(ConfigError::DuplicateAlias(ref a)) if a == "o"));
    let result = load(vec![cmd("one", &["o", "o"], None)]);
    assert!(matches!(result, Err(ConfigError::DuplicateAlias(ref a)) if a == "o"));
}

#[test]
fn name_equal_to_earlier_alias_is_rejected() {
    let result = load(vec![cmd("build", &["b"], None), cmd("b", &[], None)]);
    assert!(matches!(result, Err(ConfigError::DuplicateName(ref n)) if n == "b"));
}

#[test]
fn first_violation_is_reported() {
    let result = load(vec![
        cmd("a", &["x"], None),
        cmd("b", &["x"], None),
        cmd("a", &[], None),
    ]);
    assert!(matches!(result, Err(ConfigError::DuplicateAlias(ref s)) if s == "x"));
}

#[test]
fn failed_load_leaves_earlier_registry_usable() {
    let registry = sample_registry();
    let result = CommandRegistry::from_commands(vec![cmd("z", &[], None), cmd("z", &[], None)]);
    assert!(matches!(result, Err(ConfigError::DuplicateName(_))));
    assert_eq!(registry.get_all_commands().len(), 3);
    assert!(registry.get_command("build").is_some());
    assert!(registry.get_command("z").is_none());
}

#[test]
fn empty_category_is_not_listed() {
    let registry = load(vec![
        cmd("blank", &[], Some("")),
        cmd("tools", &[], Some("tools")),
    ])
    .unwrap();
    assert_eq!(registry.get_categories(), vec!["tools"]);
    let blank: Vec<&str> = registry
        .get_commands_by_category("")
        .iter()
        .map(|c| c.name.as_str())
        .collect();
    assert_eq!(blank, vec!["blank"]);
}

#[test]
fn sample_lookup_gives_full_record() {
    let registry = sample_registry();
    let build = registry.get_command("build").unwrap();
    assert_eq!(build.executable, "cargo");
    assert_eq!(build.args, vec!["build".to_string()]);
    assert_eq!(build.description, "Build the project");
    let deploy = registry.get_command("prod").unwrap();
    assert_eq!(deploy.executable, "bash");
    assert_eq!(deploy.working_dir.as_deref(), Some("/opt/app"));
}

#[test]
fn empty_load_gives_empty_registry() {
    let registry = load(vec![]).unwrap();
    assert!(registry.get_all_commands().is_empty());
    assert!(registry.get_command_names().is_empty());
    assert!(registry.get_completions("").is_empty());
    assert!(registry.get_categories().is_empty());
    let fresh = CommandRegistry::new();
    assert!(fresh.get_all_commands().is_empty());
}

#[test]
fn completions_are_sorted_and_exact() {
    let registry = load(vec![cmd("build", &["b"], None), cmd("bench", &[], None)]).unwrap();
    assert_eq!(registry.get_completions("b"), vec!["b", "bench", "build"]);
    assert_eq!(registry.get_completions("bu"), vec!["build"]);
    assert!(registry.get_completions("x").is_empty());
}

#[test]
fn empty_prefix_completes_every_key() {
    let registry = sample_registry();
    assert_eq!(
        registry.get_completions(""),
        vec!["b", "build", "d", "deploy", "prod", "t", "test"]
    );
}

#[test]
fn completions_are_case_sensitive_and_bytewise() {
    let registry = load(vec![
        cmd("apple", &["Apple"], None),
        cmd("Zed", &["zed"], None),
        cmd("\u{e9}clair", &[], None),
    ])
    .unwrap();
    assert_eq!(
        registry.get_completions(""),
        vec!["Apple", "Zed", "apple", "zed", "\u{e9}clair"]
    );
    assert_eq!(registry.get_completions("A"), vec!["Apple"]);
    assert_eq!(registry.get_completions("\u{e9}"), vec!["\u{e9}clair"]);
}

#[test]
fn categories_grouped_and_sorted() {
    let registry = load(vec![
        cmd("build", &[], Some("development")),
        cmd("test", &[], Some("development")),
        cmd("ship", &[], Some("deployment")),
        cmd("misc", &[], None),
    ])
    .unwrap();
    assert_eq!(registry.get_categories(), vec!["deployment", "development"]);
    let dev: Vec<&str> = registry
        .get_commands_by_category("development")
        .iter()
        .map(|c| c.name.as_str())
        .collect();
    assert_eq!(dev, vec!["build", "test"]);
    assert!(registry.get_commands_by_category("Development").is_empty());
    assert!(registry.get_commands_by_category("").is_empty());
    assert!(registry.get_commands_by_category("dev").is_empty());
}

#[test]
fn names_and_commands_in_load_order() {
    let registry = sample_registry();
    let names: Vec<&str> = registry.get_command_names().iter().map(|s| s.as_str()).collect();
    assert_eq!(names, vec!["build", "test", "deploy"]);
    let all: Vec<&str> = registry.get_all_commands().iter().map(|c| c.name.as_str()).collect();
    assert_eq!(all, vec!["build", "test", "deploy"]);
}

#[test]
fn loaded_keys_are_unique() {
    let registry = sample_registry();
    let mut keys = registry.get_completions("");
    let before = keys.len();
    keys.dedup();
    assert_eq!(keys.len(), before);
    let names = registry.get_command_names();
    for (i, a) in names.iter().enumerate() {
        for b in names.iter().skip(i + 1) {
            assert_ne!(a, b);
        }
    }
}

#[test]
fn reloading_same_commands_gives_same_answers() {
    let first = sample_registry();
    let second = sample_registry();
    assert_eq!(first.get_completions(""), second.get_completions(""));
    assert_eq!(first.get_categories(), second.get_categories());
    for key in ["build", "b", "test", "t", "deploy", "d", "prod"] {
        let a = first.get_command(key).unwrap();
        let b = second.get_command(key).unwrap();
        assert_eq!(a.name, b.name);
        assert_eq!(a.args, b.args);
        assert_eq!(a.aliases, b.aliases);
        assert_eq!(a.category, b.category);
        assert_eq!(a.env_vars, b.env_vars);
    }
}

#[test]
fn error_messages() {
    assert_eq!(ConfigError::FileNotFound.message(), "Configuration file not found");
    assert_eq!(ConfigError::ParseError("bad".to_string()).message(), "Parse error: bad");
    assert_eq!(ConfigError::IoError("denied".to_string()).message(), "IO error: denied");
    assert_eq!(
        ConfigError::DuplicateName("build".to_string()).message(),
        "Duplicate command name: build"
    );
    assert_eq!(
        ConfigError::DuplicateAlias("b".to_string()).message(),
        "Duplicate alias or command name: b"
    );
}
