use fivem_utils::config::FivemConfig;
use fivem_utils::loader::{ConfigError, ConfigParser, StepResult};

/// Drive a parse whose root text is `root` and whose included files come
/// from the `files` table, as a program reading real files would.
fn parse(root: &str, files: &[(&str, &str)]) -> Result<FivemConfig, ConfigError> {
    let mut p = ConfigParser::new();
    p.push_file(root);
    loop {
        match p.step() {
            StepResult::Progress => {},
            StepResult::NeedFile(name) => {
                match files.iter().find(|(n, _)| *n == name.as_str()) {
                    Some((_, text)) => p.push_file(text),
                    None => return Err(ConfigError::Io),
                }
            },
            StepResult::Finished => return Ok(p.into_config()),
            StepResult::Failed(e) => return Err(e),
        }
    }
}

#[test]
fn defaults_of_an_empty_file() {
    let c = parse("", &[]).unwrap();
    assert_eq!(c.hostname, "");
    assert!(c.resources.is_empty());
    assert!(c.convars.is_empty());
    assert!(c.convars_replicated.is_empty());
    assert!(c.allow_scripthook);
    assert_eq!(c.rcon_password, "");
    assert_eq!(c.licensekey, "");
    assert_eq!(c.server_icon, "");
    assert_eq!(c.max_clients, 0);
}

#[test]
fn last_set_wins() {
    let c = parse("set FOO bar\nset FOO baz", &[]).unwrap();
    assert_eq!(c.get_convar("FOO").unwrap(), "baz");
    assert_eq!(c.convars.len(), 1);
}

#[test]
fn started_resources_are_not_deduplicated() {
    let c = parse("start a\nstart a", &[]).unwrap();
    assert_eq!(c.resources, vec!["a".to_string(), "a".to_string()]);
}

#[test]
fn ensure_also_starts_a_resource() {
    let c = parse("start a\nensure b", &[]).unwrap();
    assert_eq!(c.resources, vec!["a".to_string(), "b".to_string()]);
}

#[test]
fn bad_max_clients_fails_the_parse() {
    assert_eq!(parse("sv_maxclients abc", &[]).err(), Some(ConfigError::BadMaxClients));
}

#[test]
fn numeric_max_clients_is_set() {
    let c = parse("sv_maxclients 32", &[]).unwrap();
    assert_eq!(c.max_clients, 32);
}

#[test]
fn a_failed_parse_stops_at_the_first_error() {
    // The hostname line after the failure is never applied; the parse
    // reports the error and hands no record out.
    let r = parse("sv_maxclients abc\nsv_hostname h", &[]);
    assert_eq!(r.err(), Some(ConfigError::BadMaxClients));
}

#[test]
fn exec_mutates_the_shared_record() {
    let c = parse("exec child.cfg", &[("child.cfg", "sv_hostname \"Child Server\"")]).unwrap();
    assert_eq!(c.hostname, "Child Server");
}

#[test]
fn exec_runs_depth_first_before_later_lines() {
    let root = "set K root\nexec child.cfg\nset L after";
    let child = "set K child\nset L child";
    let c = parse(root, &[("child.cfg", child)]).unwrap();
    assert_eq!(c.get_convar("K").unwrap(), "child");
    assert_eq!(c.get_convar("L").unwrap(), "after");
}

#[test]
fn a_missing_included_file_is_an_io_error() {
    assert_eq!(parse("exec nowhere.cfg", &[]).err(), Some(ConfigError::Io));
}

#[test]
fn comment_lines_have_no_effect() {
    let c = parse("# sv_hostname ignored", &[]).unwrap();
    assert_eq!(c.hostname, "");
    assert!(c.resources.is_empty());
    assert!(c.convars.is_empty());
}

#[test]
fn unknown_directives_are_ignored() {
    let c = parse("no_such_directive a b c", &[]).unwrap();
    assert!(c.convars.is_empty());
    assert_eq!(c.hostname, "");
}

#[test]
fn missing_arguments_are_tolerated_as_noops() {
    let c = parse("sv_hostname\nstart\nset\nsetr\nsv_maxclients\nexec", &[]).unwrap();
    assert_eq!(c.hostname, "");
    assert!(c.resources.is_empty());
    assert!(c.convars.is_empty());
    assert_eq!(c.max_clients, 0);
}

#[test]
fn set_without_a_value_stores_the_empty_string() {
    let c = parse("set FOO", &[]).unwrap();
    assert_eq!(c.get_convar("FOO").unwrap(), "");
    let c = parse("set FOO \"\"", &[]).unwrap();
    assert_eq!(c.get_convar("FOO").unwrap(), "");
    let c = parse("set FOO bar\nset FOO", &[]).unwrap();
    assert_eq!(c.get_convar("FOO").unwrap(), "");
}

#[test]
fn setr_uses_its_own_namespace() {
    let c = parse("set FOO server\nsetr FOO everyone", &[]).unwrap();
    assert_eq!(c.get_convar("FOO").unwrap(), "server");
    assert_eq!(c.get_replicated_convar("FOO").unwrap(), "everyone");
}

#[test]
fn scripthook_directive_compares_against_one() {
    let c = parse("sv_scriptHookAllowed 0", &[]).unwrap();
    assert!(!c.allow_scripthook);
    let c = parse("sv_scriptHookAllowed 1", &[]).unwrap();
    assert!(c.allow_scripthook);
    let c = parse("sv_scriptHookAllowed yes", &[]).unwrap();
    assert!(!c.allow_scripthook);
}

#[test]
fn scalar_directives_take_the_last_value() {
    let root = "sv_hostname one\nrcon_password p1\nsv_licenseKey k1\nload_server_icon i1\n\
                sv_hostname two\nrcon_password p2\nsv_licenseKey k2\nload_server_icon i2";
    let c = parse(root, &[]).unwrap();
    assert_eq!(c.hostname, "two");
    assert_eq!(c.rcon_password, "p2");
    assert_eq!(c.licensekey, "k2");
    assert_eq!(c.server_icon, "i2");
}

#[test]
fn a_later_root_line_overwrites_an_included_value() {
    let root = "exec child.cfg\nsv_hostname root";
    let c = parse(root, &[("child.cfg", "sv_hostname child")]).unwrap();
    assert_eq!(c.hostname, "root");
}

#[test]
fn carriage_returns_separate_lines_like_line_feeds() {
    let c = parse("sv_hostname a\r\nstart b\rstart c", &[]).unwrap();
    assert_eq!(c.hostname, "a");
    assert_eq!(c.resources, vec!["b".to_string(), "c".to_string()]);
}

#[test]
fn quoted_values_keep_their_spaces() {
    let c = parse("set NAME \"hello world\"", &[]).unwrap();
    assert_eq!(c.get_convar("NAME").unwrap(), "hello world");
}

#[test]
fn comments_must_start_at_the_first_column() {
    // A line whose `#` comes after a space is not a comment; its first token
    // is `#`, an unknown directive, so it is still ignored.
    let c = parse(" # sv_hostname x", &[]).unwrap();
    assert_eq!(c.hostname, "");
}

#[test]
fn error_messages_match_the_reported_failure() {
    assert_eq!(ConfigError::BadMaxClients.message(), "Max clients is not a number!");
    assert_eq!(ConfigError::Io.message(), "Failed to read config file.");
}
