use ghp::error::GhpError;
use ghp::store::alias_stanza;
use ghp::store::switch_host_block;
use ghp::store::Config;
use ghp::store::Profile;

fn profile(u: &[u8], e: &[u8], k: &[u8]) -> Profile {
    Profile { username: u.to_vec(), email: e.to_vec(), ssh_key: k.to_vec() }
}

fn sample_config() -> Config {
    let mut c = Config {
        ssh_config_path: b"/home/u/.ssh/config".to_vec(),
        ghp_config_path: b"/home/u/.ghp".to_vec(),
        profiles: Vec::new(),
    };
    c.add_profile(
        b"work".to_vec(),
        b"alice".to_vec(),
        b"alice@example.com".to_vec(),
        b"/home/u/.ssh/id_work".to_vec(),
    );
    c
}

#[test]
fn parse_reads_paths_and_profiles() {
    let text = b"ssh_config=/a/config\nghp_config=/a/ghp\n\n[work]\nusername=alice\nemail=a@b.c\nssh_key=/a/key\n\n";
    let c = Config::parse_config(text, b"/fb/ssh".to_vec(), b"/fb/ghp".to_vec());
    assert_eq!(c.ssh_config_path, b"/a/config".to_vec());
    assert_eq!(c.ghp_config_path, b"/a/ghp".to_vec());
    assert_eq!(c.profiles.len(), 1);
    assert_eq!(c.profiles[0].0, b"work".to_vec());
    assert_eq!(c.profiles[0].1.username, b"alice".to_vec());
    assert_eq!(c.profiles[0].1.email, b"a@b.c".to_vec());
    assert_eq!(c.profiles[0].1.ssh_key, b"/a/key".to_vec());
}

#[test]
fn parse_falls_back_to_given_paths() {
    let c = Config::parse_config(b"", b"/fb/ssh".to_vec(), b"/fb/ghp".to_vec());
    assert_eq!(c.ssh_config_path, b"/fb/ssh".to_vec());
    assert_eq!(c.ghp_config_path, b"/fb/ghp".to_vec());
    assert!(c.profiles.is_empty());
}

#[test]
fn parse_skips_comments_blanks_and_malformed_lines() {
    let text = b"# a comment\n\nnot a kv line\nssh_config=/a\n\n[p]\nusername=u\nstray\nemail=e\nssh_key=k\n";
    let c = Config::parse_config(text, b"/fb".to_vec(), b"/fb2".to_vec());
    assert_eq!(c.ssh_config_path, b"/a".to_vec());
    assert_eq!(c.ghp_config_path, b"/fb2".to_vec());
    assert_eq!(c.profiles.len(), 1);
    assert_eq!(c.profiles[0].1.email, b"e".to_vec());
}

#[test]
fn parse_trims_surrounding_whitespace() {
    let text = b"  ssh_config=/a  \n[ p]\n  username=u\n";
    let c = Config::parse_config(text, b"/fb".to_vec(), b"/fb2".to_vec());
    assert_eq!(c.ssh_config_path, b"/a".to_vec());
    assert_eq!(c.profiles[0].0, b" p".to_vec());
    assert_eq!(c.profiles[0].1.username, b"u".to_vec());
}

#[test]
fn serialize_writes_deterministic_layout() {
    let c = sample_config();
    let out = c.serialize();
    assert_eq!(
        out,
        b"ssh_config=/home/u/.ssh/config\nghp_config=/home/u/.ghp\n\n[work]\nusername=alice\nemail=alice@example.com\nssh_key=/home/u/.ssh/id_work\n\n"
            .to_vec()
    );
}

#[test]
fn save_load_save_round_trip_is_stable() {
    let mut c = sample_config();
    c.add_profile(
        b"home".to_vec(),
        b"bob".to_vec(),
        b"bob@example.com".to_vec(),
        b"/home/u/.ssh/id_home".to_vec(),
    );
    let saved = c.serialize();
    let reloaded = Config::parse_config(&saved, b"/fb".to_vec(), b"/fb2".to_vec());
    let saved_again = reloaded.serialize();
    assert_eq!(saved, saved_again);
}

#[test]
fn add_profile_overwrites_same_name_in_place() {
    let mut c = sample_config();
    c.add_profile(
        b"work".to_vec(),
        b"carol".to_vec(),
        b"c@d.e".to_vec(),
        b"/k2".to_vec(),
    );
    assert_eq!(c.profiles.len(), 1);
    assert_eq!(c.profiles[0].1.username, b"carol".to_vec());
}

#[test]
fn remove_profile_reports_found() {
    let mut c = sample_config();
    assert!(c.remove_profile(b"work"));
    assert!(c.profiles.is_empty());
}

#[test]
fn remove_missing_profile_reports_not_found_and_changes_nothing() {
    let mut c = sample_config();
    let before = c.serialize();
    assert!(!c.remove_profile(b"nobody"));
    let after = c.serialize();
    assert_eq!(before, after);
}

#[test]
fn find_profile_copies_the_entry() {
    let c = sample_config();
    let p = c.find_profile(b"work").unwrap();
    assert_eq!(p.username, b"alice".to_vec());
    assert!(c.find_profile(b"other").is_none());
}

#[test]
fn switch_block_has_canonical_shape() {
    let p = profile(b"alice", b"a@b.c", b"/home/u/.ssh/id_work");
    let block = switch_host_block(&p);
    assert_eq!(
        block,
        b"Host github.com\n  HostName github.com\n  User alice\n  IdentityFile /home/u/.ssh/id_work\n"
            .to_vec()
    );
}

#[test]
fn alias_stanza_names_the_profile() {
    let out = alias_stanza(b"work", b"alice", b"/k");
    assert_eq!(
        out,
        b"Host github.com-work\n  HostName github.com\n  User alice\n  IdentityFile /k\n\n".to_vec()
    );
}

#[test]
fn switch_profile_content_rewrites_the_stanza() {
    let c = sample_config();
    let ssh = b"Host foo\n  X 1\nHost github.com\n  User old\nHost bar\n  Y 2\n";
    let out = c.switch_profile_content(b"work", ssh).unwrap();
    assert_eq!(
        out,
        b"Host foo\n  X 1\nHost github.com\n  HostName github.com\n  User alice\n  IdentityFile /home/u/.ssh/id_work\n\nHost bar\n  Y 2\n"
            .to_vec()
    );
}

#[test]
fn switch_unknown_profile_reports_not_found() {
    let c = sample_config();
    let r = c.switch_profile_content(b"ghost", b"");
    assert!(matches!(r, Err(GhpError::ProfileNotFound(n)) if n == b"ghost".to_vec()));
}
