use pacnix::config::{
    configured_privilege_from, detect_privilege, reject_empty, skips_empty_config_command,
    split_words, Config, NixConfig, PrivilegeCommand, PrivilegeConfig,
};

fn with_command(command: PrivilegeCommand) -> Config {
    Config {
        privilege: Some(PrivilegeConfig { command: Some(command) }),
        nix: None,
    }
}

#[test]
fn parses_config_with_string_command() {
    let config = with_command(PrivilegeCommand::Single("sudo-rs".into()));
    let argv = configured_privilege_from(&None, None, &config, None).unwrap();
    assert_eq!(argv, vec!["sudo-rs"]);
}

#[test]
fn parses_config_with_array_command() {
    let config = with_command(PrivilegeCommand::Many(vec!["sudo-rs".into(), "-E".into()]));
    let argv = configured_privilege_from(&None, None, &config, None).unwrap();
    assert_eq!(argv, vec!["sudo-rs", "-E"]);
}

#[test]
fn flag_beats_config() {
    let config = with_command(PrivilegeCommand::Single("sudo-rs".into()));
    let argv =
        configured_privilege_from(&Some(vec!["pkexec".to_string()]), None, &config, None).unwrap();
    assert_eq!(argv, vec!["pkexec"]);
}

#[test]
fn empty_flag_is_rejected() {
    let config = Config::default();
    let err = configured_privilege_from(&Some(Vec::new()), None, &config, None).unwrap_err();
    assert!(err.contains("--privilege"), "got: {err}");
}

#[test]
fn empty_env_is_rejected() {
    let config = Config::default();
    let result = configured_privilege_from(&None, Some("   "), &config, None);
    assert!(result.is_err(), "empty env must be rejected");
    assert!(result.unwrap_err().contains("PACNIX_PRIVILEGE"));
    let ok = configured_privilege_from(&None, Some("sudo-rs"), &config, None).unwrap();
    assert_eq!(ok, vec!["sudo-rs"]);
}

#[test]
fn split_words_handles_quoted_free_form() {
    assert_eq!(split_words("sudo-rs -E"), vec!["sudo-rs", "-E"]);
    assert_eq!(split_words("pkexec"), vec!["pkexec"]);
}

#[test]
fn split_words_skips_all_white_space() {
    assert_eq!(split_words("  doas\t-u  root\n"), vec!["doas", "-u", "root"]);
    assert_eq!(split_words("a\u{3000}b"), vec!["a", "b"]);
    assert!(split_words(" \t ").is_empty());
}

#[test]
fn detected_tool_and_fallback() {
    let config = Config::default();
    assert_eq!(configured_privilege_from(&None, None, &config, Some("doas")).unwrap(), vec!["doas"]);
    assert_eq!(configured_privilege_from(&None, None, &config, None).unwrap(), vec!["sudo"]);
    let empty = with_command(PrivilegeCommand::Single("  ".into()));
    assert_eq!(
        configured_privilege_from(&None, None, &empty, Some("pkexec")).unwrap(),
        vec!["pkexec"]
    );
    assert!(skips_empty_config_command(&None, None, &empty));
    assert!(!skips_empty_config_command(&None, Some("sudo"), &empty));
    assert!(!skips_empty_config_command(&None, None, &config));
    let env_wins = with_command(PrivilegeCommand::Single("sudo-rs".into()));
    assert_eq!(
        configured_privilege_from(&None, Some("doas -u root"), &env_wins, None).unwrap(),
        vec!["doas", "-u", "root"]
    );
}

#[test]
fn reject_empty_names_its_source() {
    assert_eq!(
        reject_empty("--privilege", Vec::new()),
        Err("--privilege must name a privilege command (e.g. sudo, pkexec, doas)".to_string())
    );
    assert_eq!(reject_empty("x", vec!["sudo".to_string()]), Ok(vec!["sudo".to_string()]));
}

#[test]
fn detection_prefers_sudo_rs() {
    assert_eq!(detect_privilege(&|_| true), Some("sudo-rs"));
    assert_eq!(detect_privilege(&|t| t == "pkexec" || t == "doas"), Some("pkexec"));
    assert_eq!(detect_privilege(&|t| t == "doas"), Some("doas"));
    assert_eq!(detect_privilege(&|_| false), None);
}

#[test]
fn privilege_command_argv() {
    assert_eq!(PrivilegeCommand::Single("sudo -E".into()).argv(), vec!["sudo", "-E"]);
    assert_eq!(PrivilegeCommand::Many(vec!["a b".into()]).argv(), vec!["a b"]);
    let config = Config { privilege: None, nix: Some(NixConfig { profile: Some("/p".into()) }) };
    assert_eq!(config.nix.unwrap().profile.as_deref(), Some("/p"));
}
