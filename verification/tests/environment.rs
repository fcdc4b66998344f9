use env_select::config::MultiVariable;
use env_select::config::Profile;
use env_select::config::SideEffect;
use env_select::config::SideEffectCommand;
use env_select::config::ValueSource;
use env_select::config::ValueSourceInner;
use env_select::config::ValueSourceKind;
use env_select::environment::Environment;
use env_select::error::ExitCodeError;
use env_select::execute::setup_commands;
use env_select::execute::teardown_commands;
use env_select::shell::Shell;
use env_select::shell::ShellError;
use env_select::shell::ShellKind;
use indexmap::IndexMap;

fn source(kind: ValueSourceKind, multiple: bool, sensitive: bool) -> ValueSource {
    ValueSource(ValueSourceInner { kind, multiple: MultiVariable::Flag(multiple), sensitive })
}

fn literal(value: &str) -> ValueSource {
    source(ValueSourceKind::Literal { value: value.to_string() }, false, false)
}

fn profile_of(variables: Vec<(&str, ValueSource)>) -> Profile {
    let mut profile = Profile::new();
    let mut map = IndexMap::new();
    for (k, v) in variables {
        map.insert(k.to_string(), v);
    }
    profile.variables = map;
    profile
}

fn environment(variables: Vec<(&str, ValueSource)>) -> Result<Environment, String> {
    let profile = profile_of(variables);
    let loaded = vec![String::new(); profile.variables.len()];
    Environment::from_profile(&profile, &loaded, &None).map_err(|e| e.message())
}

fn pairs(environment: &Environment) -> Vec<(String, String)> {
    environment.unmasked()
}

fn owned(items: &[(&str, &str)]) -> Vec<(String, String)> {
    items.iter().map(|(k, v)| (k.to_string(), v.to_string())).collect()
}

#[test]
fn test_resolve_literal() {
    let env = environment(vec![
        ("VARIABLE1", literal("test")),
        ("VARIABLE2", source(ValueSourceKind::Literal { value: "test".to_string() }, false, true)),
    ])
    .unwrap();
    assert_eq!(pairs(&env), owned(&[("VARIABLE1", "test"), ("VARIABLE2", "test")]));
    assert_eq!(env.display(false), "VARIABLE1 = test, VARIABLE2 = <REDACTED>");
}

#[test]
fn test_resolve_multiple() {
    let env = environment(vec![(
        "multi",
        source(ValueSourceKind::Literal { value: "VARIABLE1=test1\nVARIABLE2=test2".to_string() }, true, false),
    )])
    .unwrap();
    assert_eq!(pairs(&env), owned(&[("VARIABLE1", "test1"), ("VARIABLE2", "test2")]));

    let error = environment(vec![(
        "multi",
        source(ValueSourceKind::Literal { value: "=test1".to_string() }, true, false),
    )])
    .unwrap_err();
    assert_eq!(error, "Error parsing multi-variable mapping for field multi");
}

#[test]
fn resolve_multiple_filtered() {
    let filtered = ValueSource(ValueSourceInner {
        kind: ValueSourceKind::Literal { value: "DB_HOST=db\nDB_USER=root\nDB_PASSWORD=hunter2".to_string() },
        multiple: MultiVariable::Names(vec!["DB_USER".to_string(), "DB_PASSWORD".to_string(), "MISSING".to_string()]),
        sensitive: false,
    });
    let env = environment(vec![("DATABASE", literal("dev")), ("creds", filtered)]).unwrap();
    assert_eq!(pairs(&env), owned(&[("DATABASE", "dev"), ("DB_PASSWORD", "hunter2"), ("DB_USER", "root")]));

    let broken = ValueSource(ValueSourceInner {
        kind: ValueSourceKind::Literal { value: "=x".to_string() },
        multiple: MultiVariable::Names(vec!["X".to_string()]),
        sensitive: false,
    });
    assert_eq!(
        environment(vec![("creds", broken)]).unwrap_err(),
        "Error parsing multi-variable mapping for field creds"
    );
}

#[test]
fn resolve_parsed_takes_the_given_pairs() {
    let parsed = vec![("A".to_string(), "1".to_string()), ("B".to_string(), "2".to_string())];
    let all = source(ValueSourceKind::Literal { value: "ignored".to_string() }, true, false);
    let mut env = Environment::new();
    env.resolve_parsed("x".to_string(), &all, "ignored".to_string(), Some(parsed.clone()), &None).unwrap();
    assert_eq!(pairs(&env), owned(&[("A", "1"), ("B", "2")]));

    let named = ValueSource(ValueSourceInner {
        kind: ValueSourceKind::Literal { value: "ignored".to_string() },
        multiple: MultiVariable::Names(vec!["B".to_string()]),
        sensitive: true,
    });
    let mut env = Environment::new();
    env.resolve_parsed("x".to_string(), &named, "ignored".to_string(), Some(parsed.clone()), &None).unwrap();
    assert_eq!(env.display(false), "B = <REDACTED>");

    let single = literal("raw");
    let mut env = Environment::new();
    env.resolve_parsed("x".to_string(), &single, "raw".to_string(), None, &None).unwrap();
    assert_eq!(pairs(&env), owned(&[("x", "raw")]));

    let mut env = Environment::new();
    let error = env.resolve_parsed("x".to_string(), &all, "ignored".to_string(), None, &None).unwrap_err();
    assert_eq!(error.message(), "Error parsing multi-variable mapping for field x");
    assert!(pairs(&env).is_empty());
}

#[test]
fn select_pairs_keeps_named_variables_in_order() {
    let input = vec![
        ("A".to_string(), "1".to_string()),
        ("B".to_string(), "2".to_string()),
        ("C".to_string(), "3".to_string()),
    ];
    let kept = env_select::environment::select_pairs(input, &vec!["C".to_string(), "A".to_string()]);
    assert_eq!(kept, owned(&[("A", "1"), ("C", "3")]));
}

#[test]
fn loaded_values_stand_for_other_sources() {
    let profile = profile_of(vec![
        ("A", source(ValueSourceKind::File { path: "/tmp/a".to_string() }, false, false)),
        ("B", literal("b")),
        ("C", source(ValueSourceKind::ShellCommand { command: "echo c".to_string(), cwd: None }, false, false)),
    ]);
    let loaded = vec!["from file".to_string(), "ignored".to_string(), "c".to_string()];
    let env = Environment::from_profile(&profile, &loaded, &None).unwrap();
    assert_eq!(pairs(&env), owned(&[("A", "from file"), ("B", "b"), ("C", "c")]));
}

#[test]
fn path_variable_is_prepended() {
    let inherited = Some("/usr/bin:/bin".to_string());
    let profile = profile_of(vec![("PATH", literal("~/.bin"))]);
    let env = Environment::from_profile(&profile, &vec![String::new()], &inherited).unwrap();
    assert_eq!(pairs(&env), owned(&[("PATH", "~/.bin:/usr/bin:/bin")]));

    let profile = profile_of(vec![("_", source(ValueSourceKind::Literal { value: "PATH=~/.bin".to_string() }, true, false))]);
    let env = Environment::from_profile(&profile, &vec![String::new()], &inherited).unwrap();
    assert_eq!(pairs(&env), owned(&[("PATH", "~/.bin:/usr/bin:/bin")]));

    let profile = profile_of(vec![("PATH", literal("~/.bin"))]);
    let env = Environment::from_profile(&profile, &vec![String::new()], &None).unwrap();
    assert_eq!(pairs(&env), owned(&[("PATH", "~/.bin")]));
}

#[test]
fn insert_replaces_in_place() {
    let mut env = Environment::new();
    env.insert("A".to_string(), "1".to_string(), false, &None);
    env.insert("B".to_string(), "2".to_string(), false, &None);
    env.insert("A".to_string(), "3".to_string(), true, &None);
    assert_eq!(pairs(&env), owned(&[("A", "3"), ("B", "2")]));
    assert_eq!(env.display(true), "A = <REDACTED>\nB = 2");
}

#[test]
fn export_commands_per_shell() {
    let env = environment(vec![("A", literal("1")), ("B", literal("two"))]).unwrap();
    let bash = Shell::from_kind(ShellKind::Bash);
    assert_eq!(bash.export(&env), "export 'A'='1'\nexport 'B'='two'\n");
    let zsh = Shell::from_kind(ShellKind::Zsh);
    assert_eq!(zsh.export(&env), "export 'A'='1'\nexport 'B'='two'\n");
    let fish = Shell::from_kind(ShellKind::Fish);
    assert_eq!(fish.export(&env), "set -gx 'A' '1'\nset -gx 'B' 'two'\n");
}

#[test]
fn shell_from_path() {
    let shell = Shell::from_path("/usr/bin/FISH".to_string()).ok().unwrap();
    assert_eq!(shell.kind, ShellKind::Fish);
    assert_eq!(shell.path.as_deref(), Some("/usr/bin/FISH"));
    assert_eq!(shell.display(), "/usr/bin/FISH (from $SHELL)");

    match Shell::from_path("/bin/tcsh".to_string()) {
        Err(error @ ShellError::UnknownKind { .. }) => assert_eq!(error.message(), "invalid variant: tcsh"),
        _ => panic!("tcsh is not supported"),
    }
    match Shell::from_path("/".to_string()) {
        Err(error @ ShellError::NoFileName { .. }) => {
            assert_eq!(error.message(), "Failed to read shell type from path: /")
        },
        _ => panic!("a root path has no file name"),
    }
}

#[test]
fn shell_kind_names() {
    assert_eq!(ShellKind::from_name("Bash"), Ok(ShellKind::Bash));
    assert_eq!(ShellKind::from_name("zsh"), Ok(ShellKind::Zsh));
    assert_eq!(ShellKind::from_name("ksh"), Err("invalid variant: ksh".to_string()));
    assert_eq!(ShellKind::Fish.name(), "fish");
    assert_eq!(Shell::from_kind(ShellKind::Zsh).display(), "zsh (from $PATH)");
}

#[test]
fn shell_executables() {
    let shell = Shell::from_kind(ShellKind::Bash);
    let executable = shell.executable("echo hi");
    assert_eq!(executable.program, "bash");
    assert_eq!(executable.arguments, vec!["-c".to_string(), "echo hi".to_string()]);
    let native = env_select::config::NativeCommand::from_vec(vec!["touch".to_string(), "x".to_string()]).unwrap();
    let run = shell.command_executable(&SideEffectCommand::Native(native));
    assert_eq!(run.to_vec(), vec!["touch".to_string(), "x".to_string()]);
    let detected = Shell::from_path("/bin/zsh".to_string()).ok().unwrap();
    assert_eq!(detected.program(), "/bin/zsh");
}

#[test]
fn path_helpers() {
    assert!(Shell::is_path_variable("PATH"));
    assert!(!Shell::is_path_variable("path"));
    assert_eq!(Shell::prepend_path("/a".to_string(), &Some("/b".to_string())), "/a:/b");
    assert_eq!(Shell::prepend_path("/a".to_string(), &None), "/a");
}

#[test]
fn init_script_replaces_binary_path() {
    let posix = "es() { ENV_SELECT_BINARY \"$@\"; } # ENV_SELECT_BINARY";
    let fish = "function es; ENV_SELECT_BINARY $argv; end";
    let bash = Shell::from_kind(ShellKind::Bash);
    assert_eq!(bash.init_script(posix, fish, "/opt/es"), "es() { /opt/es \"$@\"; } # /opt/es");
    let fish_shell = Shell::from_kind(ShellKind::Fish);
    assert_eq!(fish_shell.init_script(posix, fish, "/opt/es"), "function es; /opt/es $argv; end");
}

#[test]
fn side_effect_order() {
    let effects = vec![
        SideEffect::new(Some(SideEffectCommand::Shell("up1".to_string())), Some(SideEffectCommand::Shell("down1".to_string()))),
        SideEffect::new(None, Some(SideEffectCommand::Shell("down2".to_string()))),
        SideEffect::new(Some(SideEffectCommand::Shell("up3".to_string())), None),
        SideEffect::new(Some(SideEffectCommand::Shell("up4".to_string())), Some(SideEffectCommand::Shell("down4".to_string()))),
    ];
    let shell = |s: &str| SideEffectCommand::Shell(s.to_string());
    assert_eq!(setup_commands(&effects), vec![shell("up1"), shell("up3"), shell("up4")]);
    assert_eq!(teardown_commands(&effects), vec![shell("down4"), shell("down2"), shell("down1")]);
}

#[test]
fn exit_code_error() {
    assert_eq!(ExitCodeError(Some(3)).message(), "process failed with exit code: 3");
    assert_eq!(ExitCodeError(Some(-12)).message(), "process failed with exit code: -12");
    assert_eq!(ExitCodeError(None).message(), "process failed with exit code: none");
    assert_eq!(ExitCodeError(Some(3)).exit_code(), Some(3));
    assert_eq!(ExitCodeError(Some(256)).exit_code(), None);
    assert_eq!(ExitCodeError(None).exit_code(), None);
}

#[test]
fn command_failure_messages() {
    assert_eq!(env_select::error::command_failure_message("`ls []`", Some(2)), "`ls []` failed with exit code 2");
    assert_eq!(env_select::error::command_failure_message("`x`", None), "`x` failed with exit code unknown");
}
