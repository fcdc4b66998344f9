use env_select::completions::candidates;
use env_select::config::name::Name;
use env_select::config::Application;
use env_select::config::Config;
use env_select::config::Profile;
use env_select::config::ValueSource;
use env_select::console::preselect;
use env_select::console::MapExt;
use env_select::console::Prompt;
use env_select::text::command_output;
use env_select::text::integer_text;
use env_select::text::replace;
use env_select::text::starts_with;
use indexmap::IndexMap;

fn name(s: &str) -> Name {
    Name::from_str(s).unwrap()
}

fn application(profiles: &[&str]) -> Application {
    let mut map = IndexMap::new();
    for p in profiles {
        map.insert(name(p), Profile::new());
    }
    Application { profiles: map }
}

fn sample() -> Config {
    let mut applications = IndexMap::new();
    applications.insert(name("server"), application(&["dev", "prd"]));
    applications.insert(name("client"), application(&["local"]));
    Config { applications }
}

#[test]
fn try_get_and_keys() {
    let config = sample();
    assert!(config.applications.try_get(&name("server")).is_ok());
    assert_eq!(
        config.applications.try_get(&name("db")).err().unwrap(),
        "Unknown key db, options are: server, client"
    );
    assert_eq!(config.applications.display_keys(), "server, client");
    assert_eq!(config.applications.display_keys_delimited("|"), "server|client");
    let server = config.applications.try_get(&name("server")).ok().unwrap();
    assert_eq!(server.profiles.display_keys(), "dev, prd");
    assert_eq!(server.profiles.key_count(), 2);
}

#[test]
fn preselect_choices() {
    let config = sample();
    let chosen = preselect(&config.applications, Some(&name("client")), "application").unwrap();
    assert_eq!(chosen.unwrap().profiles.display_keys(), "local");
    assert!(preselect(&config.applications, None, "application").unwrap().is_none());
    assert_eq!(
        preselect(&config.applications, Some(&name("x")), "application").err().unwrap(),
        "Unknown key x, options are: server, client"
    );
    let empty: IndexMap<Name, Profile> = IndexMap::new();
    assert_eq!(preselect(&empty, None, "profile").err().unwrap(), "No profiles to choose from");
}

#[test]
fn prompt_option_text() {
    let server = application(&["dev", "prd"]);
    assert_eq!(server.format_option(&name("server")), "=== server ===\ndev\nprd\n");
    assert_eq!(Application::self_name(), "application");
    let mut profile = Profile::new();
    profile.variables.insert("A".to_string(), ValueSource::from_literal("x".to_string()));
    assert_eq!(profile.format_option(&name("dev")), "=== dev ===\nA = \"x\"\n");
    assert_eq!(Profile::self_name(), "profile");
}

#[test]
fn completion_candidates() {
    let config = sample();
    let apps = config.application_names();
    assert_eq!(apps, vec!["server".to_string(), "client".to_string()]);
    assert_eq!(candidates(&apps, "se"), vec!["server".to_string()]);
    assert_eq!(candidates(&apps, ""), apps);
    let profiles = config.profile_names();
    assert_eq!(profiles, vec!["dev".to_string(), "prd".to_string(), "local".to_string()]);
    assert_eq!(candidates(&profiles, "d"), vec!["dev".to_string()]);
}

#[test]
fn text_helpers() {
    assert!(starts_with("server", "ser"));
    assert!(!starts_with("se", "ser"));
    assert_eq!(replace("aXbXXc", "X", "--"), "a--b----c");
    assert_eq!(replace("aaa", "aa", "b"), "ba");
    assert_eq!(integer_text(0), "0");
    assert_eq!(integer_text(-2147483648), "-2147483648");
    assert_eq!(integer_text(1024), "1024");
}

#[test]
fn command_output_is_trimmed() {
    assert_eq!(command_output(&b"value \n\t".to_vec()), Some("value".to_string()));
    assert_eq!(command_output(&b"  a b\n".to_vec()), Some("  a b".to_string()));
    assert_eq!(command_output(&Vec::new()), Some(String::new()));
    assert_eq!(command_output(&vec![0xff, 0xfe]), None);
}
