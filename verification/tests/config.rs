use env_select::config::inherit::InheritanceError;
use env_select::config::name::Name;
use env_select::config::name::NameError;
use env_select::config::name::ProfileReference;
use env_select::config::Application;
use env_select::config::Config;
use env_select::config::MultiVariable;
use env_select::config::Profile;
use env_select::config::SideEffect;
use env_select::config::SideEffectCommand;
use env_select::config::ValueSource;
use env_select::config::ValueSourceInner;
use env_select::config::ValueSourceKind;
use indexmap::IndexMap;
use indexmap::IndexSet;

fn name(s: &str) -> Name {
    Name::from_str(s).unwrap()
}

fn reference(s: &str) -> ProfileReference {
    ProfileReference::from_str(s).unwrap()
}

fn config(applications: Vec<(&str, Vec<(&str, Profile)>)>) -> Config {
    let mut apps = IndexMap::new();
    for (app_name, profiles) in applications {
        let mut map = IndexMap::new();
        for (profile_name, profile) in profiles {
            map.insert(name(profile_name), profile);
        }
        apps.insert(name(app_name), Application { profiles: map });
    }
    Config { applications: apps }
}

fn set<const N: usize>(items: [&str; N]) -> IndexSet<ProfileReference> {
    items.into_iter().map(reference).collect()
}

fn map<const N: usize>(items: [(&str, ValueSource); N]) -> IndexMap<String, ValueSource> {
    items.into_iter().map(|(k, v)| (k.to_string(), v)).collect()
}

fn literal(value: &str) -> ValueSource {
    ValueSource(ValueSourceInner {
        kind: ValueSourceKind::Literal { value: value.to_string() },
        multiple: MultiVariable::Flag(false),
        sensitive: false,
    })
}

fn file(path: &str) -> ValueSource {
    ValueSource(ValueSourceInner {
        kind: ValueSourceKind::File { path: path.to_string() },
        multiple: MultiVariable::Flag(false),
        sensitive: false,
    })
}

fn command(command: &str, cwd: Option<&str>) -> ValueSource {
    ValueSource(ValueSourceInner {
        kind: ValueSourceKind::ShellCommand { command: command.to_string(), cwd: cwd.map(|c| c.to_string()) },
        multiple: MultiVariable::Flag(false),
        sensitive: false,
    })
}

fn side_effect(setup: &str, teardown: &str) -> SideEffect {
    SideEffect::new(
        Some(SideEffectCommand::Shell(setup.to_string())),
        Some(SideEffectCommand::Shell(teardown.to_string())),
    )
}

fn profile(
    extends: IndexSet<ProfileReference>,
    pre_export: Vec<SideEffect>,
    post_export: Vec<SideEffect>,
    variables: IndexMap<String, ValueSource>,
) -> Profile {
    Profile { extends, variables, pre_export, post_export }
}

fn extends_only(extends: IndexSet<ProfileReference>) -> Profile {
    let mut p = Profile::new();
    p.extends = extends;
    p
}

fn variables_only(variables: IndexMap<String, ValueSource>) -> Profile {
    let mut p = Profile::new();
    p.variables = variables;
    p
}

fn inherit_error(cfg: &mut Config) -> String {
    match cfg.inherit() {
        Ok(()) => panic!("Expected an inheritance error"),
        Err(e) => e.message(),
    }
}

#[test]
fn test_inherit_single() {
    let mut cfg = config(vec![(
        "app",
        vec![
            (
                "base",
                profile(
                    set([]),
                    vec![side_effect("base pre", "base pre")],
                    vec![side_effect("base post", "base post")],
                    map([("VAR1", literal("base")), ("VAR2", literal("base"))]),
                ),
            ),
            (
                "child",
                profile(
                    set(["app/base"]),
                    vec![side_effect("child pre", "child pre")],
                    vec![side_effect("child post", "child post")],
                    map([("VAR1", literal("child")), ("VAR3", literal("child"))]),
                ),
            ),
        ],
    )]);
    cfg.inherit().expect("Error resolving valid inheritance");
    assert_eq!(
        cfg,
        config(vec![(
            "app",
            vec![
                (
                    "base",
                    profile(
                        set([]),
                        vec![side_effect("base pre", "base pre")],
                        vec![side_effect("base post", "base post")],
                        map([("VAR1", literal("base")), ("VAR2", literal("base"))]),
                    ),
                ),
                (
                    "child",
                    profile(
                        set(["app/base"]),
                        vec![side_effect("base pre", "base pre"), side_effect("child pre", "child pre")],
                        vec![side_effect("base post", "base post"), side_effect("child post", "child post")],
                        map([
                            ("VAR1", literal("child")),
                            ("VAR3", literal("child")),
                            ("VAR2", literal("base")),
                        ]),
                    ),
                ),
            ],
        )])
    );
}

#[test]
fn test_inherit_linear() {
    let mut cfg = config(vec![
        (
            "app1",
            vec![
                (
                    "base",
                    profile(
                        set([]),
                        vec![side_effect("base pre", "base pre")],
                        vec![side_effect("base post", "base post")],
                        map([("VAR1", literal("base")), ("VAR2", literal("base"))]),
                    ),
                ),
                (
                    "child1",
                    profile(
                        set(["app1/base"]),
                        vec![side_effect("child1 pre", "child1 pre")],
                        vec![side_effect("child1 post", "child1 post")],
                        map([("VAR1", literal("child1")), ("VAR3", literal("child1"))]),
                    ),
                ),
            ],
        ),
        (
            "app2",
            vec![(
                "child2",
                profile(
                    set(["app1/child1"]),
                    vec![side_effect("child2 pre", "child2 pre")],
                    vec![side_effect("child2 post", "child2 post")],
                    map([("VAR1", literal("child2")), ("VAR4", literal("child2"))]),
                ),
            )],
        ),
    ]);
    cfg.inherit().expect("Error resolving valid inheritance");
    assert_eq!(
        cfg,
        config(vec![
            (
                "app1",
                vec![
                    (
                        "base",
                        profile(
                            set([]),
                            vec![side_effect("base pre", "base pre")],
                            vec![side_effect("base post", "base post")],
                            map([("VAR1", literal("base")), ("VAR2", literal("base"))]),
                        ),
                    ),
                    (
                        "child1",
                        profile(
                            set(["app1/base"]),
                            vec![side_effect("base pre", "base pre"), side_effect("child1 pre", "child1 pre")],
                            vec![side_effect("base post", "base post"), side_effect("child1 post", "child1 post")],
                            map([
                                ("VAR2", literal("base")),
                                ("VAR1", literal("child1")),
                                ("VAR3", literal("child1")),
                            ]),
                        ),
                    ),
                ],
            ),
            (
                "app2",
                vec![(
                    "child2",
                    profile(
                        set(["app1/child1"]),
                        vec![
                            side_effect("base pre", "base pre"),
                            side_effect("child1 pre", "child1 pre"),
                            side_effect("child2 pre", "child2 pre"),
                        ],
                        vec![
                            side_effect("base post", "base post"),
                            side_effect("child1 post", "child1 post"),
                            side_effect("child2 post", "child2 post"),
                        ],
                        map([
                            ("VAR2", literal("base")),
                            ("VAR1", literal("child2")),
                            ("VAR4", literal("child2")),
                            ("VAR3", literal("child1")),
                        ]),
                    ),
                )],
            ),
        ]),
    );
}

#[test]
fn test_inherit_nonlinear() {
    let mut cfg = config(vec![
        (
            "app1",
            vec![
                (
                    "base1",
                    profile(
                        set([]),
                        vec![side_effect("base1 pre", "base1 pre")],
                        vec![side_effect("base1 post", "base1 post")],
                        map([("BASE_VAR1", literal("base1")), ("BASE_VAR2", literal("base1"))]),
                    ),
                ),
                (
                    "prof2",
                    profile(
                        set(["app1/base1"]),
                        vec![side_effect("prof2 pre", "prof2 pre")],
                        vec![side_effect("prof2 post", "prof2 post")],
                        map([("BASE_VAR2", literal("prof2")), ("CHILD_VAR1", literal("prof2"))]),
                    ),
                ),
                (
                    "base2",
                    profile(
                        set([]),
                        vec![side_effect("base2 pre", "base2 pre")],
                        vec![side_effect("base2 post", "base2 post")],
                        map([("BASE_VAR3", literal("base2")), ("BASE_VAR4", literal("base2"))]),
                    ),
                ),
            ],
        ),
        (
            "app2",
            vec![
                (
                    "prof1",
                    profile(
                        set(["app1/base1"]),
                        vec![side_effect("prof1 pre", "prof1 pre")],
                        vec![side_effect("prof1 post", "prof1 post")],
                        map([("BASE_VAR2", literal("prof1"))]),
                    ),
                ),
                (
                    "prof3",
                    profile(
                        set(["app2/prof1", "app1/prof2"]),
                        vec![side_effect("prof3 pre", "prof3 pre")],
                        vec![side_effect("prof3 post", "prof3 post")],
                        map([("CHILD_VAR2", literal("prof3")), ("CHILD_VAR3", literal("prof3"))]),
                    ),
                ),
                (
                    "prof4",
                    profile(
                        set(["app2/prof1"]),
                        vec![side_effect("prof4 pre", "prof4 pre")],
                        vec![side_effect("prof4 post", "prof4 post")],
                        map([("CHILD_VAR4", literal("prof4")), ("BASE_VAR4", literal("prof4"))]),
                    ),
                ),
                (
                    "prof5",
                    profile(
                        set(["app2/prof4", "app2/prof3", "app1/base2"]),
                        vec![side_effect("prof5 pre", "prof5 pre")],
                        vec![side_effect("prof5 post", "prof5 post")],
                        map([("CHILD_VAR5", literal("prof5"))]),
                    ),
                ),
            ],
        ),
        (
            "app3",
            vec![
                (
                    "solo",
                    profile(
                        set([]),
                        vec![side_effect("solo pre", "solo pre")],
                        vec![side_effect("solo post", "solo post")],
                        map([("SOLO_VAR1", literal("solo1"))]),
                    ),
                ),
                (
                    "striker1",
                    profile(
                        set([]),
                        vec![side_effect("striker1 pre", "striker1 pre")],
                        vec![side_effect("striker1 post", "striker1 post")],
                        map([("CHILD_VAR1", literal("striker1")), ("CHILD_VAR2", literal("striker1"))]),
                    ),
                ),
                (
                    "striker2",
                    profile(
                        set(["app3/striker1"]),
                        vec![side_effect("striker2 pre", "striker2 pre")],
                        vec![side_effect("striker2 post", "striker2 post")],
                        map([("CHILD_VAR1", literal("striker2")), ("CHILD_VAR3", literal("striker2"))]),
                    ),
                ),
            ],
        ),
    ]);
    cfg.inherit().expect("Error resolving valid inheritance");
    assert_eq!(
        cfg,
        config(vec![
            (
                "app1",
                vec![
                    (
                        "base1",
                        profile(
                            set([]),
                            vec![side_effect("base1 pre", "base1 pre")],
                            vec![side_effect("base1 post", "base1 post")],
                            map([("BASE_VAR1", literal("base1")), ("BASE_VAR2", literal("base1"))]),
                        ),
                    ),
                    (
                        "prof2",
                        profile(
                            set(["app1/base1"]),
                            vec![side_effect("base1 pre", "base1 pre"), side_effect("prof2 pre", "prof2 pre")],
                            vec![side_effect("base1 post", "base1 post"), side_effect("prof2 post", "prof2 post")],
                            map([
                                ("BASE_VAR1", literal("base1")),
                                ("BASE_VAR2", literal("prof2")),
                                ("CHILD_VAR1", literal("prof2")),
                            ]),
                        ),
                    ),
                    (
                        "base2",
                        profile(
                            set([]),
                            vec![side_effect("base2 pre", "base2 pre")],
                            vec![side_effect("base2 post", "base2 post")],
                            map([("BASE_VAR3", literal("base2")), ("BASE_VAR4", literal("base2"))]),
                        ),
                    ),
                ],
            ),
            (
                "app2",
                vec![
                    (
                        "prof1",
                        profile(
                            set(["app1/base1"]),
                            vec![side_effect("base1 pre", "base1 pre"), side_effect("prof1 pre", "prof1 pre")],
                            vec![side_effect("base1 post", "base1 post"), side_effect("prof1 post", "prof1 post")],
                            map([("BASE_VAR1", literal("base1")), ("BASE_VAR2", literal("prof1"))]),
                        ),
                    ),
                    (
                        "prof3",
                        profile(
                            set(["app2/prof1", "app1/prof2"]),
                            vec![
                                side_effect("base1 pre", "base1 pre"),
                                side_effect("prof1 pre", "prof1 pre"),
                                side_effect("base1 pre", "base1 pre"),
                                side_effect("prof2 pre", "prof2 pre"),
                                side_effect("prof3 pre", "prof3 pre"),
                            ],
                            vec![
                                side_effect("base1 post", "base1 post"),
                                side_effect("prof1 post", "prof1 post"),
                                side_effect("base1 post", "base1 post"),
                                side_effect("prof2 post", "prof2 post"),
                                side_effect("prof3 post", "prof3 post"),
                            ],
                            map([
                                ("BASE_VAR1", literal("base1")),
                                // The left-most parent (prof1) takes precedence
                                ("BASE_VAR2", literal("prof1")),
                                ("CHILD_VAR1", literal("prof2")),
                                ("CHILD_VAR2", literal("prof3")),
                                ("CHILD_VAR3", literal("prof3")),
                            ]),
                        ),
                    ),
                    (
                        "prof4",
                        profile(
                            set(["app2/prof1"]),
                            vec![
                                side_effect("base1 pre", "base1 pre"),
                                side_effect("prof1 pre", "prof1 pre"),
                                side_effect("prof4 pre", "prof4 pre"),
                            ],
                            vec![
                                side_effect("base1 post", "base1 post"),
                                side_effect("prof1 post", "prof1 post"),
                                side_effect("prof4 post", "prof4 post"),
                            ],
                            map([
                                ("BASE_VAR1", literal("base1")),
                                ("BASE_VAR2", literal("prof1")),
                                ("CHILD_VAR4", literal("prof4")),
                                ("BASE_VAR4", literal("prof4")),
                            ]),
                        ),
                    ),
                    (
                        "prof5",
                        profile(
                            set(["app2/prof4", "app2/prof3", "app1/base2"]),
                            vec![
                                side_effect("base1 pre", "base1 pre"),
                                side_effect("prof1 pre", "prof1 pre"),
                                side_effect("prof4 pre", "prof4 pre"),
                                side_effect("base1 pre", "base1 pre"),
                                side_effect("prof1 pre", "prof1 pre"),
                                side_effect("base1 pre", "base1 pre"),
                                side_effect("prof2 pre", "prof2 pre"),
                                side_effect("prof3 pre", "prof3 pre"),
                                side_effect("base2 pre", "base2 pre"),
                                side_effect("prof5 pre", "prof5 pre"),
                            ],
                            vec![
                                side_effect("base1 post", "base1 post"),
                                side_effect("prof1 post", "prof1 post"),
                                side_effect("prof4 post", "prof4 post"),
                                side_effect("base1 post", "base1 post"),
                                side_effect("prof1 post", "prof1 post"),
                                side_effect("base1 post", "base1 post"),
                                side_effect("prof2 post", "prof2 post"),
                                side_effect("prof3 post", "prof3 post"),
                                side_effect("base2 post", "base2 post"),
                                side_effect("prof5 post", "prof5 post"),
                            ],
                            map([
                                ("BASE_VAR1", literal("base1")),
                                // The left-most parents (prof4, then prof3) take precedence
                                ("BASE_VAR2", literal("prof1")),
                                ("CHILD_VAR4", literal("prof4")),
                                ("CHILD_VAR1", literal("prof2")),
                                ("CHILD_VAR2", literal("prof3")),
                                ("CHILD_VAR3", literal("prof3")),
                                ("BASE_VAR3", literal("base2")),
                                ("BASE_VAR4", literal("prof4")),
                                ("CHILD_VAR5", literal("prof5")),
                            ]),
                        ),
                    ),
                ],
            ),
            (
                "app3",
                vec![
                    (
                        "solo",
                        profile(
                            set([]),
                            vec![side_effect("solo pre", "solo pre")],
                            vec![side_effect("solo post", "solo post")],
                            map([("SOLO_VAR1", literal("solo1"))]),
                        ),
                    ),
                    (
                        "striker1",
                        profile(
                            set([]),
                            vec![side_effect("striker1 pre", "striker1 pre")],
                            vec![side_effect("striker1 post", "striker1 post")],
                            map([("CHILD_VAR1", literal("striker1")), ("CHILD_VAR2", literal("striker1"))]),
                        ),
                    ),
                    (
                        "striker2",
                        profile(
                            set(["app3/striker1"]),
                            vec![side_effect("striker1 pre", "striker1 pre"), side_effect("striker2 pre", "striker2 pre")],
                            vec![side_effect("striker1 post", "striker1 post"), side_effect("striker2 post", "striker2 post")],
                            map([
                                ("CHILD_VAR2", literal("striker1")),
                                ("CHILD_VAR1", literal("striker2")),
                                ("CHILD_VAR3", literal("striker2")),
                            ]),
                        ),
                    ),
                ],
            ),
        ]),
    );
}

#[test]
fn test_inherit_cycle() {
    // One-node cycle
    let mut cfg = config(vec![(
        "app1",
        vec![("child1", profile(set(["app1/child1"]), vec![], vec![], map([])))],
    )]);
    assert_eq!(inherit_error(&mut cfg), "Inheritance cycle detected: app1/child1 -> app1/child1");

    // Two-node cycle
    let mut cfg = config(vec![(
        "app1",
        vec![
            ("child1", profile(set(["app1/child2"]), vec![], vec![], map([]))),
            ("child2", profile(set(["app1/child1"]), vec![], vec![], map([]))),
        ],
    )]);
    assert_eq!(
        inherit_error(&mut cfg),
        "Inheritance cycle detected: app1/child2 -> app1/child1 -> app1/child2"
    );

    // 3-node cycle
    let mut cfg = config(vec![(
        "app1",
        vec![
            ("child1", profile(set(["app1/child3"]), vec![], vec![], map([]))),
            ("child2", profile(set(["app1/child1"]), vec![], vec![], map([]))),
            ("child3", profile(set(["app1/child2"]), vec![], vec![], map([]))),
        ],
    )]);
    assert_eq!(
        inherit_error(&mut cfg),
        "Inheritance cycle detected: app1/child3 -> app1/child2 -> app1/child1 -> app1/child3"
    );
}

#[test]
fn test_inherit_unknown() {
    let mut cfg = config(vec![(
        "app1",
        vec![("child1", profile(set(["app1/base"]), vec![], vec![], map([])))],
    )]);
    assert_eq!(inherit_error(&mut cfg), "Unknown profile: app1/base");
}

#[test]
fn inherit_reports_the_first_defect_met() {
    // The last waiting profile is resolved first, and its parents are
    // handled from the last one
    let mut cfg = config(vec![(
        "app",
        vec![
            ("a", profile(set(["app/missing_a"]), vec![], vec![], map([]))),
            ("b", profile(set(["app/b", "app/missing_b"]), vec![], vec![], map([]))),
        ],
    )]);
    assert_eq!(inherit_error(&mut cfg), "Unknown profile: app/missing_b");

    let mut cfg = config(vec![(
        "app",
        vec![
            ("a", profile(set(["app/missing_a"]), vec![], vec![], map([]))),
            ("b", profile(set(["app/missing_b", "app/b"]), vec![], vec![], map([]))),
        ],
    )]);
    assert_eq!(inherit_error(&mut cfg), "Inheritance cycle detected: app/b -> app/b");
}

#[test]
fn inherit_unqualified_parent_is_refused() {
    let before = config(vec![(
        "app",
        vec![("child", profile(set(["base"]), vec![], vec![], map([])))],
    )]);
    let mut cfg = config(vec![(
        "app",
        vec![("child", profile(set(["base"]), vec![], vec![], map([])))],
    )]);
    let error = cfg.inherit().unwrap_err();
    assert!(matches!(error, InheritanceError::Unqualified { .. }));
    assert_eq!(error.message(), "Unqualified parent `base` for profile `child`");
    assert_eq!(cfg, before);
}

#[test]
fn inherit_left_most_parent_takes_precedence() {
    let mut cfg = config(vec![(
        "server",
        vec![
            ("base1", variables_only(map([("PROTOCOL", literal("https"))]))),
            ("base2", variables_only(map([("PROTOCOL", literal("http"))]))),
            (
                "dev",
                profile(
                    set(["server/base1", "server/base2"]),
                    vec![],
                    vec![],
                    map([("SERVICE1", literal("dev")), ("SERVICE2", literal("also-dev"))]),
                ),
            ),
        ],
    )]);
    cfg.inherit().unwrap();
    let dev = &cfg.applications[&name("server")].profiles[&name("dev")];
    assert_eq!(
        dev.variables,
        map([
            ("SERVICE1", literal("dev")),
            ("SERVICE2", literal("also-dev")),
            ("PROTOCOL", literal("https")),
        ])
    );
}

#[test]
fn inherit_own_value_beats_every_parent() {
    let mut cfg = config(vec![(
        "app",
        vec![
            ("a", variables_only(map([("X", literal("a")), ("Y", literal("a"))]))),
            ("b", variables_only(map([("X", literal("b")), ("Z", literal("b"))]))),
            ("child", profile(set(["app/a", "app/b"]), vec![], vec![], map([("Y", literal("child"))]))),
        ],
    )]);
    cfg.inherit().unwrap();
    let child = &cfg.applications[&name("app")].profiles[&name("child")];
    assert_eq!(child.variables["X"], literal("a"));
    assert_eq!(child.variables["Y"], literal("child"));
    assert_eq!(child.variables["Z"], literal("b"));
}

#[test]
fn test_merge_config() {
    let alpha_profile = || variables_only(map([("VARIABLE1", literal("alpha"))]));
    let beta_profile = || variables_only(map([("VARIABLE1", literal("beta"))]));
    let mut alpha_config = config(vec![(
        "app1",
        vec![("no_conflict", alpha_profile()), ("conflict", alpha_profile())],
    )]);
    let beta_config = config(vec![
        ("app1", vec![("conflict", beta_profile())]),
        ("app2", vec![("no_conflict", beta_profile())]),
    ]);
    alpha_config.merge(beta_config);
    assert_eq!(
        alpha_config,
        config(vec![
            ("app1", vec![("no_conflict", alpha_profile()), ("conflict", alpha_profile())]),
            ("app2", vec![("no_conflict", beta_profile())]),
        ])
    );
}

#[test]
fn merge_adds_missing_profiles_after_existing_ones() {
    let mut alpha = config(vec![("app", vec![("one", Profile::new())])]);
    let beta = config(vec![("app", vec![("two", Profile::new()), ("one", variables_only(map([("V", literal("x"))])))])]);
    alpha.merge(beta);
    let names: Vec<&str> = alpha.applications[&name("app")].profiles.keys().map(|n| n.as_str()).collect();
    assert_eq!(names, vec!["one", "two"]);
    assert_eq!(alpha.applications[&name("app")].profiles[&name("one")], Profile::new());
}

#[test]
fn test_qualify_profile_reference() {
    let mut cfg = config(vec![(
        "app",
        vec![
            ("base", extends_only(set([]))),
            ("child1", extends_only(set(["base"]))),
            ("child2", extends_only(set(["app2/base"]))),
        ],
    )]);
    cfg.qualify("/root/.env-select.toml");
    assert_eq!(
        cfg,
        config(vec![(
            "app",
            vec![
                ("base", extends_only(set([]))),
                ("child1", extends_only(set(["app/base"]))),
                ("child2", extends_only(set(["app2/base"]))),
            ],
        )])
    );
}

#[test]
fn test_qualify_file_value_path() {
    let mut cfg = config(vec![("app", vec![("prof", variables_only(map([("VAR1", file("var.txt"))])))])]);
    cfg.qualify("/root/.env-select.toml");
    assert_eq!(
        cfg,
        config(vec![("app", vec![("prof", variables_only(map([("VAR1", file("/root/var.txt"))])))])])
    );
}

#[test]
fn test_qualify_command_cwd_path() {
    let mut cfg = config(vec![(
        "app",
        vec![(
            "prof",
            variables_only(map([("VAR1", command("echo", None)), ("VAR2", command("echo", Some(".venv/bin")))])),
        )],
    )]);
    cfg.qualify("/root/.env-select.toml");
    assert_eq!(
        cfg,
        config(vec![(
            "app",
            vec![(
                "prof",
                variables_only(map([("VAR1", command("echo", None)), ("VAR2", command("echo", Some("/root/.venv/bin")))])),
            )],
        )])
    );
}

#[test]
fn qualify_native_command_cwd_path() {
    let native = |cwd: &str| {
        ValueSource(ValueSourceInner {
            kind: ValueSourceKind::NativeCommand {
                command: env_select::config::NativeCommand::from_vec(vec!["pwd".to_string()]).unwrap(),
                cwd: Some(cwd.to_string()),
            },
            multiple: MultiVariable::Flag(false),
            sensitive: false,
        })
    };
    let mut cfg = config(vec![("app", vec![("prof", variables_only(map([("VAR", native("bin"))])))])]);
    cfg.qualify("/root/.env-select.toml");
    assert_eq!(cfg, config(vec![("app", vec![("prof", variables_only(map([("VAR", native("/root/bin"))])))])]));
}

#[test]
fn try_qualify_refuses_a_root_path_with_a_command_cwd() {
    let mut cfg = config(vec![("app", vec![("prof", variables_only(map([("VAR", command("echo", Some("bin")))])))])]);
    assert!(!cfg.try_qualify("/"));
    let mut no_cwd = config(vec![("app", vec![("prof", variables_only(map([("VAR", command("echo", None))])))])]);
    assert!(no_cwd.try_qualify("/"));
}

#[test]
fn qualify_merges_parents_that_become_equal() {
    let mut cfg = config(vec![("app", vec![("child", extends_only(set(["base", "app/base"])))])]);
    cfg.qualify("/root/.env-select.toml");
    let child = &cfg.applications[&name("app")].profiles[&name("child")];
    let parents: Vec<String> = child.extends.iter().map(|r| r.to_string()).collect();
    assert_eq!(parents, vec!["app/base".to_string()]);
}

#[test]
fn qualify_keeps_absolute_paths() {
    let mut cfg = config(vec![("app", vec![("prof", variables_only(map([("VAR1", file("/usr/var.txt"))])))])]);
    cfg.qualify("/root/.env-select.toml");
    assert_eq!(
        cfg,
        config(vec![("app", vec![("prof", variables_only(map([("VAR1", file("/usr/var.txt"))])))])])
    );
}

#[test]
fn try_qualify_refuses_a_root_path_with_files() {
    let mut cfg = config(vec![("app", vec![("prof", variables_only(map([("VAR1", file("var.txt"))])))])]);
    assert!(!cfg.try_qualify("/"));
    assert_eq!(cfg, config(vec![("app", vec![("prof", variables_only(map([("VAR1", file("var.txt"))])))])]));
    let mut refs_only = config(vec![("app", vec![("child", extends_only(set(["base"])))])]);
    assert!(refs_only.try_qualify("/"));
    assert_eq!(refs_only, config(vec![("app", vec![("child", extends_only(set(["app/base"])))])]));
}

#[test]
fn test_parse_name() {
    assert_eq!(name("-123_valid-name with\nwhitespace _").as_str(), "-123_valid-name with\nwhitespace _");
    let message = |s: &str| Name::from_str(s).unwrap_err().message();
    assert_eq!(message(""), "Invalid name: empty string");
    assert_eq!(message(" "), "Invalid name: contains leading/trailing whitespace");
    assert_eq!(message(" name"), "Invalid name: contains leading/trailing whitespace");
    assert_eq!(message("name "), "Invalid name: contains leading/trailing whitespace");
    assert_eq!(message("/"), "Invalid name: contains one of reserved characters \\/*?!");
    assert!(matches!(Name::from_str(""), Err(NameError::Empty)));
}

#[test]
fn test_parse_profile_reference() {
    let profile_only = reference("profile");
    assert!(profile_only.application().is_none());
    assert_eq!(profile_only.profile().as_str(), "profile");
    assert_eq!(profile_only.to_string(), "profile");

    let full = reference("app/prof");
    assert_eq!(full.application().map(|n| n.as_str()), Some("app"));
    assert_eq!(full.profile().as_str(), "prof");
    assert_eq!(full.to_string(), "app/prof");

    let message = |s: &str| ProfileReference::from_str(s).unwrap_err().message();
    assert_eq!(message(""), "Invalid name: empty string");
    assert_eq!(message("/"), "Invalid name: empty string");
    assert_eq!(message("/prof"), "Invalid name: empty string");
    assert_eq!(message("app/"), "Invalid name: empty string");
    assert_eq!(message("app/prof/"), "Invalid name: contains one of reserved characters \\/*?!");
    assert_eq!(message("/app/prof"), "Invalid name: empty string");
    assert_eq!(message("app//prof"), "Invalid name: contains one of reserved characters \\/*?!");
}

#[test]
fn reference_qualification() {
    let app = name("app");
    assert_eq!(reference("base").qualify(&app).to_string(), "app/base");
    assert_eq!(reference("other/base").qualify(&app).to_string(), "other/base");
    assert!(reference("other/base").is_qualified());
    assert!(!reference("base").is_qualified());
}

#[test]
fn value_source_display() {
    assert_eq!(literal("abc").display(), "\"abc\"");
    assert_eq!(file("/tmp/x").display(), "/tmp/x");
    let native = env_select::config::NativeCommand::from_vec(vec!["echo".to_string(), "a b".to_string()]).unwrap();
    assert_eq!(native.display(), "`echo \"a b\"`");
    let shell = ValueSource(ValueSourceInner {
        kind: ValueSourceKind::ShellCommand { command: "echo hi".to_string(), cwd: None },
        multiple: MultiVariable::Flag(false),
        sensitive: false,
    });
    assert_eq!(shell.display(), "`echo hi` (shell)");
    let kube = ValueSource(ValueSourceInner {
        kind: ValueSourceKind::KubernetesCommand {
            command: native,
            pod_selector: "app=api".to_string(),
            namespace: None,
            container: Some("main".to_string()),
        },
        multiple: MultiVariable::Flag(false),
        sensitive: false,
    });
    assert_eq!(kube.display(), "`echo \"a b\"` (kubernetes <current namespace>[app=api].main)");
}

#[test]
fn native_command_array_form() {
    let command = env_select::config::NativeCommand::from_vec(vec!["echo".to_string(), "test".to_string()]).unwrap();
    assert_eq!(command.program, "echo");
    assert_eq!(command.arguments, vec!["test".to_string()]);
    assert_eq!(command.to_vec(), vec!["echo".to_string(), "test".to_string()]);
    assert_eq!(
        env_select::config::NativeCommand::from_vec(vec![]).unwrap_err(),
        "Command array must have at least one element"
    );
}

#[test]
fn value_source_from_literal() {
    assert_eq!(ValueSource::from_literal("v".to_string()), literal("v"));
}

#[test]
fn side_effect_parts() {
    let effect = side_effect("up", "down");
    assert_eq!(effect.setup(), Some(&SideEffectCommand::Shell("up".to_string())));
    assert_eq!(effect.teardown(), Some(&SideEffectCommand::Shell("down".to_string())));
}

#[test]
fn cascade_lower_files_win() {
    let top = config(vec![
        ("server", vec![("dev", variables_only(map([("SERVICE1", literal("secret-dev-server"))]))), ("stg", variables_only(map([("SERVICE1", literal("secret-stg-server"))])))]),
    ]);
    let bottom = config(vec![
        ("server", vec![("dev", variables_only(map([("SERVICE1", literal("dev"))]))), ("prd", variables_only(map([("SERVICE1", literal("prd"))])))]),
    ]);
    let (merged, unused) = env_select::config::merge::cascade(vec![top, bottom]);
    let unused: Vec<Vec<String>> = unused.iter().map(|refs| refs.iter().map(|r| r.to_string()).collect()).collect();
    assert_eq!(unused, vec![vec!["server/dev".to_string()], vec![]]);
    assert_eq!(
        merged,
        config(vec![(
            "server",
            vec![
                ("dev", variables_only(map([("SERVICE1", literal("dev"))]))),
                ("prd", variables_only(map([("SERVICE1", literal("prd"))]))),
                ("stg", variables_only(map([("SERVICE1", literal("secret-stg-server"))]))),
            ],
        )])
    );
}

#[test]
fn duplicates_lists_profiles_defined_in_both() {
    let alpha = config(vec![
        ("app1", vec![("one", Profile::new()), ("two", Profile::new())]),
        ("app2", vec![("three", Profile::new())]),
    ]);
    let beta = config(vec![
        ("app2", vec![("three", Profile::new()), ("four", Profile::new())]),
        ("app3", vec![("one", Profile::new())]),
        ("app1", vec![("two", Profile::new()), ("one", Profile::new())]),
    ]);
    let found: Vec<String> = alpha.duplicates(&beta).iter().map(|r| r.to_string()).collect();
    assert_eq!(found, vec!["app2/three".to_string(), "app1/two".to_string(), "app1/one".to_string()]);
    assert!(beta.duplicates(&config(vec![])).is_empty());
}

#[test]
fn inherited_variables_come_in_parent_order() {
    let mut cfg = config(vec![(
        "app",
        vec![
            ("p1", variables_only(map([("A", literal("p1")), ("X", literal("p1"))]))),
            ("p2", variables_only(map([("B", literal("p2")), ("X", literal("p2"))]))),
            ("child", profile(set(["app/p1", "app/p2"]), vec![], vec![], map([("C", literal("child"))]))),
        ],
    )]);
    cfg.inherit().unwrap();
    let child = &cfg.applications[&name("app")].profiles[&name("child")];
    let keys: Vec<&str> = child.variables.keys().map(|k| k.as_str()).collect();
    assert_eq!(keys, vec!["A", "X", "B", "C"]);
    assert_eq!(child.variables["X"], literal("p1"));
}

#[test]
fn qualify_joins_paths_like_unix() {
    let mut cfg = config(vec![(
        "app",
        vec![(
            "prof",
            variables_only(map([("A", file("a.txt")), ("B", file("")), ("C", file("/abs/c.txt"))])),
        )],
    )]);
    cfg.qualify("dir/.env-select.toml");
    assert_eq!(
        cfg,
        config(vec![(
            "app",
            vec![(
                "prof",
                variables_only(map([("A", file("dir/a.txt")), ("B", file("dir/")), ("C", file("/abs/c.txt"))])),
            )],
        )])
    );
    // A config file named without a directory has the empty path as its
    // directory: paths stay as they are
    let mut bare = config(vec![("app", vec![("prof", variables_only(map([("A", file("a.txt"))])))])]);
    bare.qualify(".env-select.toml");
    assert_eq!(bare, config(vec![("app", vec![("prof", variables_only(map([("A", file("a.txt"))])))])]));
}

#[test]
fn qualified_config_inherits() {
    let mut cfg = config(vec![(
        "server",
        vec![
            ("base", variables_only(map([("PROTOCOL", literal("https"))]))),
            ("dev", profile(set(["base"]), vec![], vec![], map([("SERVICE1", literal("dev"))]))),
        ],
    )]);
    cfg.qualify("/home/me/.env-select.toml");
    cfg.inherit().unwrap();
    let dev = &cfg.applications[&name("server")].profiles[&name("dev")];
    assert_eq!(dev.variables["PROTOCOL"], literal("https"));
    assert_eq!(dev.variables["SERVICE1"], literal("dev"));
}

#[test]
fn inherit_is_deterministic() {
    let build = || {
        config(vec![(
            "app",
            vec![
                ("a", variables_only(map([("X", literal("a"))]))),
                ("b", profile(set(["app/a"]), vec![side_effect("b", "b")], vec![], map([]))),
                ("c", profile(set(["app/b", "app/a"]), vec![], vec![], map([("Y", literal("c"))]))),
            ],
        )])
    };
    let mut first = build();
    let mut second = build();
    first.inherit().unwrap();
    second.inherit().unwrap();
    assert_eq!(first, second);
}
