//! Default config file locations and store construction.
//!
//! The home directory comes from the platform through one trusted call; the
//! paths derived from it, and the stores built for `load` and `setup`, are
//! verified.

use vstd::prelude::*;
use vstd::string::StrSliceExecFns;

use crate::error::GhpError;
use crate::store::config_wf;
use crate::store::parse_spec;
use crate::store::Config;

verus! {

/// `/.ssh/config`
pub open spec fn ssh_config_suffix() -> Seq<u8> {
    seq![47u8, 46u8, 115u8, 115u8, 104u8, 47u8, 99u8, 111u8, 110u8, 102u8, 105u8, 103u8]
}

/// `/.ghp`
pub open spec fn ghp_suffix() -> Seq<u8> {
    seq![47u8, 46u8, 103u8, 104u8, 112u8]
}

/// Relies on dirs::home_dir for the platform's home directory. The result
/// depends on the environment, so nothing is promised of its value.
#[verifier::external_body]
fn home_dir_string() -> (r: Option<String>) {
    dirs::home_dir().map(|p| p.to_string_lossy().into_owned())
}

/// `no home directory`
fn no_home_message() -> (r: Vec<u8>) {
    let mut v: Vec<u8> = Vec::new();
    v.push(110u8);
    v.push(111u8);
    v.push(32u8);
    v.push(104u8);
    v.push(111u8);
    v.push(109u8);
    v.push(101u8);
    v.push(32u8);
    v.push(100u8);
    v.push(105u8);
    v.push(114u8);
    v.push(101u8);
    v.push(99u8);
    v.push(116u8);
    v.push(111u8);
    v.push(114u8);
    v.push(121u8);
    v
}

/// The two default config paths derived from a home directory:
/// `<home>/.ssh/config` and `<home>/.ghp`.
pub fn default_paths_from(home: &[u8]) -> (r: (Vec<u8>, Vec<u8>))
    ensures
        r.0@ == home@ + ssh_config_suffix(),
        r.1@ == home@ + ghp_suffix(),
{
    let mut ssh = crate::text::copy_range(home, 0, home.len());
    ssh.push(47u8);
    ssh.push(46u8);
    ssh.push(115u8);
    ssh.push(115u8);
    ssh.push(104u8);
    ssh.push(47u8);
    ssh.push(99u8);
    ssh.push(111u8);
    ssh.push(110u8);
    ssh.push(102u8);
    ssh.push(105u8);
    ssh.push(103u8);
    let mut ghp = crate::text::copy_range(home, 0, home.len());
    ghp.push(47u8);
    ghp.push(46u8);
    ghp.push(103u8);
    ghp.push(104u8);
    ghp.push(112u8);
    proof {
        assert(home@.subrange(0, home@.len() as int) =~= home@);
        assert(ssh@ =~= home@ + ssh_config_suffix());
        assert(ghp@ =~= home@ + ghp_suffix());
    }
    (ssh, ghp)
}

/// The default `~/.ssh/config` and `~/.ghp` paths: what the platform
/// reported as the home directory, with the two suffixes appended by
/// `default_paths_from`. Fails when the platform reports no home directory;
/// since that answer depends on the environment, only the shape of a
/// successful result can be stated here — the per-value contract is
/// `default_paths_from`'s.
pub fn get_default_paths() -> (r: Result<(Vec<u8>, Vec<u8>), GhpError>)
    ensures
        r matches Ok(p) ==> exists|h: Seq<u8>|
            p.0@ == h + ssh_config_suffix() && p.1@ == h + ghp_suffix(),
        r matches Err(e) ==> e is ConfigParse,
{
    match home_dir_string() {
        None => Err(GhpError::ConfigParse(no_home_message())),
        Some(home) => {
            let hb = home.as_str().as_bytes_vec();
            let ghost hseq = hb@;
            let (ssh, ghp) = default_paths_from(hb.as_slice());
            proof {
                assert(ssh@ == hseq + ssh_config_suffix() && ghp@ == hseq + ghp_suffix());
            }
            Ok((ssh, ghp))
        },
    }
}

/// The store as `load` builds it: the profiles, and the two paths, parsed
/// from the store file content when the file exists, with the home-derived
/// defaults as the fallback for any path the file does not set. Fails
/// exactly when the default paths cannot be determined.
pub fn load_from(content: Option<&[u8]>) -> (r: Result<Config, GhpError>)
    ensures
        r matches Ok(c) ==> ({
            let t = match content {
                Some(b) => b@,
                None => Seq::<u8>::empty(),
            };
            &&& config_wf(c@)
            &&& exists|h: Seq<u8>|
                c@ == parse_spec(t, h + ssh_config_suffix(), h + ghp_suffix())
        }),
        r matches Err(e) ==> e is ConfigParse,
{
    match get_default_paths() {
        Err(e) => Err(e),
        Ok((dssh, dghp)) => {
            let ghost h0 = choose|h: Seq<u8>|
                dssh@ == h + ssh_config_suffix() && dghp@ == h + ghp_suffix();
            let empty: Vec<u8> = Vec::new();
            let c = match content {
                Some(b) => Config::parse_config(b, dssh, dghp),
                None => Config::parse_config(empty.as_slice(), dssh, dghp),
            };
            proof {
                let t = match content {
                    Some(b) => b@,
                    None => Seq::<u8>::empty(),
                };
                assert(c@ == parse_spec(t, h0 + ssh_config_suffix(), h0 + ghp_suffix()));
            }
            Ok(c)
        },
    }
}

/// The store that `setup` persists: the given paths, with the home-derived
/// default for any path not given, and no profiles. With both paths given it
/// always succeeds; it fails only when a default is needed and there is no
/// home directory.
pub fn make_setup_config(ssh: Option<Vec<u8>>, ghp: Option<Vec<u8>>) -> (r: Result<
    Config,
    GhpError,
>)
    ensures
        r matches Ok(c) ==> ({
            &&& c@.profiles.len() == 0
            &&& config_wf(c@)
            &&& (ssh matches Some(s) ==> c@.ssh_config_path == s@)
            &&& (ghp matches Some(g) ==> c@.ghp_config_path == g@)
            &&& (ssh is None ==> exists|h: Seq<u8>| c@.ssh_config_path == h + ssh_config_suffix())
            &&& (ghp is None ==> exists|h: Seq<u8>| c@.ghp_config_path == h + ghp_suffix())
            &&& (ssh is None && ghp is None ==> exists|h: Seq<u8>|
                c@.ssh_config_path == h + ssh_config_suffix() && c@.ghp_config_path == h
                    + ghp_suffix())
        }),
        ssh is Some && ghp is Some ==> r is Ok,
        r matches Err(e) ==> e is ConfigParse,
{
    let (sp, gp): (Vec<u8>, Vec<u8>) = match (ssh, ghp) {
        (Some(s), Some(g)) => (s, g),
        (Some(s), None) => {
            match get_default_paths() {
                Err(e) => {
                    return Err(e);
                },
                Ok((_ds, dg)) => (s, dg),
            }
        },
        (None, Some(g)) => {
            match get_default_paths() {
                Err(e) => {
                    return Err(e);
                },
                Ok((ds, _dg)) => (ds, g),
            }
        },
        (None, None) => {
            match get_default_paths() {
                Err(e) => {
                    return Err(e);
                },
                Ok((ds, dg)) => (ds, dg),
            }
        },
    };
    let c = Config { ssh_config_path: sp, ghp_config_path: gp, profiles: Vec::new() };
    proof {
        assert(c@.profiles.len() == 0);
    }
    Ok(c)
}

} // verus!
