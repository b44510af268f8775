use ghp::paths::default_paths_from;
use ghp::paths::get_default_paths;
use ghp::paths::load_from;
use ghp::paths::make_setup_config;

#[test]
fn default_paths_append_the_suffixes() {
    let (ssh, ghp_path) = default_paths_from(b"/home/u");
    assert_eq!(ssh, b"/home/u/.ssh/config".to_vec());
    assert_eq!(ghp_path, b"/home/u/.ghp".to_vec());
}

#[test]
fn default_paths_end_with_known_suffixes() {
    let (ssh, ghp_path) = get_default_paths().unwrap();
    assert!(ssh.ends_with(b"/.ssh/config"));
    assert!(ghp_path.ends_with(b"/.ghp"));
}

#[test]
fn load_without_content_gives_empty_store_with_default_paths() {
    let c = load_from(None).unwrap();
    assert!(c.profiles.is_empty());
    assert!(c.ssh_config_path.ends_with(b"/.ssh/config"));
    assert!(c.ghp_config_path.ends_with(b"/.ghp"));
}

#[test]
fn load_takes_paths_from_the_file() {
    let text = b"ssh_config=/custom\nghp_config=/custom.ghp\n\n[p]\nusername=u\nemail=e\nssh_key=k\n";
    let c = load_from(Some(text.as_slice())).unwrap();
    assert_eq!(c.ssh_config_path, b"/custom".to_vec());
    assert_eq!(c.ghp_config_path, b"/custom.ghp".to_vec());
    assert_eq!(c.profiles.len(), 1);
    assert_eq!(c.profiles[0].0, b"p".to_vec());
}

#[test]
fn load_falls_back_to_defaults_for_unset_paths() {
    let text = b"[p]\nusername=u\nemail=e\nssh_key=k\n";
    let c = load_from(Some(text.as_slice())).unwrap();
    assert!(c.ssh_config_path.ends_with(b"/.ssh/config"));
    assert!(c.ghp_config_path.ends_with(b"/.ghp"));
}

#[test]
fn save_load_save_is_stable_for_custom_paths() {
    let mut c = ghp::store::Config {
        ssh_config_path: b"/custom/ssh_config".to_vec(),
        ghp_config_path: b"/custom/store".to_vec(),
        profiles: Vec::new(),
    };
    c.add_profile(b"p".to_vec(), b"u".to_vec(), b"e@f.g".to_vec(), b"/k".to_vec());
    let saved = c.serialize();
    let reloaded = load_from(Some(&saved)).unwrap();
    assert_eq!(reloaded.serialize(), saved);
}

#[test]
fn setup_uses_given_paths() {
    let c = make_setup_config(Some(b"/s".to_vec()), Some(b"/g".to_vec())).unwrap();
    assert_eq!(c.ssh_config_path, b"/s".to_vec());
    assert_eq!(c.ghp_config_path, b"/g".to_vec());
    assert!(c.profiles.is_empty());
}

#[test]
fn setup_defaults_an_omitted_path() {
    let c = make_setup_config(Some(b"/s".to_vec()), None).unwrap();
    assert_eq!(c.ssh_config_path, b"/s".to_vec());
    assert!(c.ghp_config_path.ends_with(b"/.ghp"));
}
