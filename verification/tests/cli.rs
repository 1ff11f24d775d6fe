use mori::cli::args::Args;
use mori::cli::config::{AllowConfig, ConfigFile, FileConfig, NetworkConfig};
use mori::cli::loader::PolicyLoader;
use mori::error::MoriError;
use mori::policy::file::AccessMode;
use mori::policy::net::AllowPolicy;

fn strings_of(value: Option<&toml::Value>) -> Vec<String> {
    match value {
        Some(toml::Value::Array(items)) => items
            .iter()
            .map(|item| item.as_str().unwrap().to_string())
            .collect(),
        _ => Vec::new(),
    }
}

/// Reads the text of a configuration file into its plain form.
fn config_of(text: &str) -> ConfigFile {
    let table: toml::Table = text.parse().unwrap();
    let allow = match table.get("network").and_then(|n| n.get("allow")) {
        Some(toml::Value::Boolean(b)) => AllowConfig::Boolean(*b),
        Some(list) => AllowConfig::Entries(strings_of(Some(list))),
        None => AllowConfig::default(),
    };
    let file = table.get("file");
    ConfigFile {
        network: NetworkConfig { allow },
        file: FileConfig {
            deny: strings_of(file.and_then(|f| f.get("deny"))),
            deny_read: strings_of(file.and_then(|f| f.get("deny_read"))),
            deny_write: strings_of(file.and_then(|f| f.get("deny_write"))),
        },
    }
}

fn args() -> Args {
    Args {
        config: None,
        allow_network: vec![],
        allow_network_all: false,
        deny_file: vec![],
        deny_file_read: vec![],
        deny_file_write: vec![],
        command: vec!["echo".to_string(), "test".to_string()],
    }
}

#[test]
fn load_and_convert_policy() {
    let config = config_of("[network]\nallow = [\n \"192.0.2.1\",\n \"example.com\"\n]\n\n");
    let policy = config.to_policy().unwrap();
    match policy.policy {
        AllowPolicy::Entries {
            allowed_ipv4,
            allowed_cidr,
            allowed_domains,
        } => {
            assert_eq!(allowed_ipv4.len(), 1);
            assert_eq!(allowed_cidr.len(), 0);
            assert_eq!(allowed_domains.len(), 1);
        }
        _ => panic!("Expected Entries variant"),
    }
}

#[test]
fn load_boolean_allow_true() {
    let config = config_of("[network]\nallow = true\n\n");
    let policy = config.to_policy().unwrap();
    assert!(policy.is_allow_all());
}

#[test]
fn load_boolean_allow_false() {
    let config = config_of("[network]\nallow = false\n\n");
    let policy = config.to_policy().unwrap();
    assert!(!policy.is_allow_all());
}

#[test]
fn load_file_config_deny_paths() {
    let config = config_of(
        r#"
[file]
deny = ["/tmp/secret", "/etc/passwd"]
deny_read = ["/home/user/.ssh"]
deny_write = ["/var/log"]

"#,
    );
    assert_eq!(config.file.deny.len(), 2);
    assert_eq!(config.file.deny_read.len(), 1);
    assert_eq!(config.file.deny_write.len(), 1);
}

#[test]
fn load_empty_file_config() {
    let config = config_of("[network]\nallow = true\n\n");
    assert_eq!(config.file.deny.len(), 0);
    assert_eq!(config.file.deny_read.len(), 0);
    assert_eq!(config.file.deny_write.len(), 0);
}

#[test]
fn load_creates_allow_all_policy() {
    let args = Args {
        config: None,
        allow_network: vec![],
        allow_network_all: true,
        deny_file: vec![],
        deny_file_read: vec![],
        deny_file_write: vec![],
        command: vec!["echo".to_string(), "test".to_string()],
    };

    let policy = PolicyLoader::load(&args, None, "/").unwrap();
    assert!(policy.network.is_allow_all());
}

#[test]
fn load_creates_deny_all_policy() {
    let args = Args {
        config: None,
        allow_network: vec![],
        allow_network_all: false,
        deny_file: vec![],
        deny_file_read: vec![],
        deny_file_write: vec![],
        command: vec!["echo".to_string(), "test".to_string()],
    };

    let policy = PolicyLoader::load(&args, None, "/").unwrap();
    assert!(!policy.network.is_allow_all());
}

#[test]
fn default_config_denies_the_network_and_no_file() {
    let config = ConfigFile::default();
    assert!(matches!(config.network.allow, AllowConfig::Boolean(false)));
    assert!(!config.to_policy().unwrap().is_allow_all());
    assert!(config.file.deny.is_empty());
    assert!(matches!(NetworkConfig::default().allow, AllowConfig::Boolean(false)));
    assert!(matches!(AllowConfig::default(), AllowConfig::Boolean(false)));
    assert!(FileConfig::default().deny_write.is_empty());
}

#[test]
fn load_merges_config_and_command_line() {
    let config = config_of(
        "[network]\nallow = [\"10.0.0.1\", \"a.test\"]\n[file]\ndeny = [\"/c/both\"]\ndeny_read = [\"c/read\"]\ndeny_write = [\"/c/../c/write\"]\n",
    );
    let mut args = args();
    args.allow_network = vec!["a.test:443".to_string(), "10.0.0.0/8".to_string()];
    args.deny_file = vec!["both".to_string()];
    args.deny_file_read = vec!["/read".to_string()];
    args.deny_file_write = vec!["./write".to_string()];
    let policy = PolicyLoader::load(&args, Some(&config), "/work").unwrap();
    match policy.network.policy {
        AllowPolicy::Entries { allowed_ipv4, allowed_cidr, allowed_domains } => {
            assert_eq!(allowed_ipv4.len(), 1);
            assert_eq!(allowed_cidr.len(), 1);
            assert_eq!(allowed_domains, vec!["a.test".to_string()]);
        }
        _ => panic!("Expected Entries variant"),
    }
    assert_eq!(
        policy.file.denied_paths,
        vec![
            ("/c/both".to_string(), AccessMode::ReadWrite),
            ("/work/c/read".to_string(), AccessMode::Read),
            ("/c/write".to_string(), AccessMode::Write),
            ("/work/both".to_string(), AccessMode::ReadWrite),
            ("/read".to_string(), AccessMode::Read),
            ("/work/write".to_string(), AccessMode::Write),
        ]
    );
}

#[test]
fn load_lets_either_allow_all_win() {
    let config = config_of("[network]\nallow = true\n");
    let mut args = args();
    args.allow_network = vec!["10.0.0.1".to_string()];
    let policy = PolicyLoader::load(&args, Some(&config), "/").unwrap();
    assert!(policy.network.is_allow_all());

    let config = config_of("[network]\nallow = [\"10.0.0.1\"]\n");
    let mut args = self::args();
    args.allow_network_all = true;
    args.allow_network = vec!["::1".to_string()];
    let policy = PolicyLoader::load(&args, Some(&config), "/").unwrap();
    assert!(policy.network.is_allow_all());
}

#[test]
fn load_reports_refused_entries() {
    let config = config_of("[network]\nallow = [\"10.0.0.1/40\"]\n");
    let mut args = args();
    args.allow_network = vec!["::1".to_string()];
    match PolicyLoader::load(&args, Some(&config), "/") {
        Err(MoriError::InvalidAllowNetworkEntry { entry, .. }) => assert_eq!(entry, "10.0.0.1/40"),
        other => panic!("unexpected {:?}", other),
    }
    match PolicyLoader::load(&args, None, "/") {
        Err(MoriError::InvalidAllowNetworkEntry { entry, reason }) => {
            assert_eq!(entry, "::1");
            assert_eq!(reason, "IPv6 addresses are not supported");
        }
        other => panic!("unexpected {:?}", other),
    }
}
