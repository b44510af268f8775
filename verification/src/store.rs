//! The profile store: named profiles, the line-oriented store file format,
//! and the block builders for the SSH config editor.
//!
//! The store file holds `ssh_config=` and `ghp_config=` paths before any
//! section, then one `[name]` section per profile with `username=`, `email=`
//! and `ssh_key=` entries. Blank lines, `#` comments and unrecognized lines
//! are skipped; parsing never fails. Profiles keep their order of first
//! appearance, which makes serialization deterministic.

use vstd::prelude::*;

use crate::error::GhpError;
use crate::text::find_byte;
use crate::text::is_ws;
use crate::text::lemma_find_byte_at;
use crate::text::lemma_trim_stable;
use crate::text::line_free;
use crate::text::lines_of;
use crate::text::nl;
use crate::text::push_bytes;
use crate::text::split_lines;
use crate::text::trim;
use crate::text::trim_bytes;
use crate::text::trim_start;
use crate::text::unlines;

verus! {

/// One GitHub identity: Git username, email and the SSH key path.
pub struct Profile {
    pub username: Vec<u8>,
    pub email: Vec<u8>,
    pub ssh_key: Vec<u8>,
}

/// Mathematical image of a `Profile`.
pub ghost struct ProfileV {
    pub username: Seq<u8>,
    pub email: Seq<u8>,
    pub ssh_key: Seq<u8>,
}

impl View for Profile {
    type V = ProfileV;

    open spec fn view(&self) -> ProfileV {
        ProfileV { username: self.username@, email: self.email@, ssh_key: self.ssh_key@ }
    }
}

/// The store: the two configured paths and the profiles, keyed by name.
pub struct Config {
    pub ssh_config_path: Vec<u8>,
    pub ghp_config_path: Vec<u8>,
    pub profiles: Vec<(Vec<u8>, Profile)>,
}

/// Mathematical image of a `Config`.
pub ghost struct ConfigV {
    pub ssh_config_path: Seq<u8>,
    pub ghp_config_path: Seq<u8>,
    pub profiles: Seq<(Seq<u8>, ProfileV)>,
}

/// The image of the profile list.
pub open spec fn vprofs(ps: Seq<(Vec<u8>, Profile)>) -> Seq<(Seq<u8>, ProfileV)> {
    ps.map_values(|pr: (Vec<u8>, Profile)| (pr.0@, pr.1@))
}

impl View for Config {
    type V = ConfigV;

    open spec fn view(&self) -> ConfigV {
        ConfigV {
            ssh_config_path: self.ssh_config_path@,
            ghp_config_path: self.ghp_config_path@,
            profiles: vprofs(self.profiles@),
        }
    }
}

/// Profile names are mutually distinct.
pub open spec fn config_wf(c: ConfigV) -> bool {
    forall|i: int, j: int|
        0 <= i < j < c.profiles.len() ==> c.profiles[i].0 != c.profiles[j].0
}

// ---------------------------------------------------------------------------
// The store file keys, as byte strings.
// ---------------------------------------------------------------------------

/// `ssh_config`
pub open spec fn key_ssh_config() -> Seq<u8> {
    seq![115u8, 115u8, 104u8, 95u8, 99u8, 111u8, 110u8, 102u8, 105u8, 103u8]
}

/// `ghp_config`
pub open spec fn key_ghp_config() -> Seq<u8> {
    seq![103u8, 104u8, 112u8, 95u8, 99u8, 111u8, 110u8, 102u8, 105u8, 103u8]
}

/// `username`
pub open spec fn key_username() -> Seq<u8> {
    seq![117u8, 115u8, 101u8, 114u8, 110u8, 97u8, 109u8, 101u8]
}

/// `email`
pub open spec fn key_email() -> Seq<u8> {
    seq![101u8, 109u8, 97u8, 105u8, 108u8]
}

/// `ssh_key`
pub open spec fn key_ssh_key() -> Seq<u8> {
    seq![115u8, 115u8, 104u8, 95u8, 107u8, 101u8, 121u8]
}

fn lit_key_ssh_config() -> (r: Vec<u8>)
    ensures
        r@ == key_ssh_config(),
{
    let mut v: Vec<u8> = Vec::new();
    v.push(115u8);
    v.push(115u8);
    v.push(104u8);
    v.push(95u8);
    v.push(99u8);
    v.push(111u8);
    v.push(110u8);
    v.push(102u8);
    v.push(105u8);
    v.push(103u8);
    proof {
        assert(v@ =~= key_ssh_config());
    }
    v
}

fn lit_key_ghp_config() -> (r: Vec<u8>)
    ensures
        r@ == key_ghp_config(),
{
    let mut v: Vec<u8> = Vec::new();
    v.push(103u8);
    v.push(104u8);
    v.push(112u8);
    v.push(95u8);
    v.push(99u8);
    v.push(111u8);
    v.push(110u8);
    v.push(102u8);
    v.push(105u8);
    v.push(103u8);
    proof {
        assert(v@ =~= key_ghp_config());
    }
    v
}

fn lit_key_username() -> (r: Vec<u8>)
    ensures
        r@ == key_username(),
{
    let mut v: Vec<u8> = Vec::new();
    v.push(117u8);
    v.push(115u8);
    v.push(101u8);
    v.push(114u8);
    v.push(110u8);
    v.push(97u8);
    v.push(109u8);
    v.push(101u8);
    proof {
        assert(v@ =~= key_username());
    }
    v
}

fn lit_key_email() -> (r: Vec<u8>)
    ensures
        r@ == key_email(),
{
    let mut v: Vec<u8> = Vec::new();
    v.push(101u8);
    v.push(109u8);
    v.push(97u8);
    v.push(105u8);
    v.push(108u8);
    proof {
        assert(v@ =~= key_email());
    }
    v
}

fn lit_key_ssh_key() -> (r: Vec<u8>)
    ensures
        r@ == key_ssh_key(),
{
    let mut v: Vec<u8> = Vec::new();
    v.push(115u8);
    v.push(115u8);
    v.push(104u8);
    v.push(95u8);
    v.push(107u8);
    v.push(101u8);
    v.push(121u8);
    proof {
        assert(v@ =~= key_ssh_key());
    }
    v
}

// ---------------------------------------------------------------------------
// Parsing, as a state machine folded over the lines.
// ---------------------------------------------------------------------------

/// Parser state: the two paths as read so far, the profiles in order of
/// first appearance, and the section the cursor stands in.
pub ghost struct ParseState {
    pub ssh: Option<Seq<u8>>,
    pub ghp: Option<Seq<u8>>,
    pub profiles: Seq<(Seq<u8>, ProfileV)>,
    pub cur: Option<Seq<u8>>,
}

/// The state before any line.
pub open spec fn init_state() -> ParseState {
    ParseState { ssh: None, ghp: None, profiles: Seq::empty(), cur: None }
}

/// A profile with all fields empty, as first materialized by a field line.
pub open spec fn empty_profile() -> ProfileV {
    ProfileV { username: Seq::empty(), email: Seq::empty(), ssh_key: Seq::empty() }
}

/// Index of the profile named `name`, or `ps.len()` if absent.
pub open spec fn find_prof(ps: Seq<(Seq<u8>, ProfileV)>, name: Seq<u8>) -> nat
    decreases ps.len(),
{
    if ps.len() == 0 {
        0
    } else if ps[0].0 == name {
        0
    } else {
        1 + find_prof(ps.drop_first(), name)
    }
}

/// `find_prof` is in bounds, lands on the name, and skips no occurrence.
pub proof fn lemma_find_prof_props(ps: Seq<(Seq<u8>, ProfileV)>, name: Seq<u8>)
    ensures
        find_prof(ps, name) <= ps.len(),
        find_prof(ps, name) < ps.len() ==> ps[find_prof(ps, name) as int].0 == name,
        forall|m: int| 0 <= m < find_prof(ps, name) ==> ps[m].0 != name,
    decreases ps.len(),
{
    if ps.len() != 0 && ps[0].0 != name {
        lemma_find_prof_props(ps.drop_first(), name);
        assert forall|m: int| 0 <= m < find_prof(ps, name) implies ps[m].0 != name by {
            if m > 0 {
                assert(ps.drop_first()[m - 1] == ps[m]);
            }
        }
    }
}

/// A position before which the name does not occur, and which carries it or
/// is the length, is exactly `find_prof`.
pub proof fn lemma_find_prof_at(ps: Seq<(Seq<u8>, ProfileV)>, name: Seq<u8>, k: int)
    requires
        0 <= k <= ps.len(),
        k < ps.len() ==> ps[k].0 == name,
        k == ps.len() ==> forall|m: int| 0 <= m < ps.len() ==> ps[m].0 != name,
        forall|m: int| 0 <= m < k ==> ps[m].0 != name,
    ensures
        find_prof(ps, name) == k,
    decreases ps.len(),
{
    if ps.len() == 0 {
    } else if ps[0].0 == name {
    } else {
        assert(forall|m: int|
            0 <= m < k - 1 ==> ps.drop_first()[m] == ps[m + 1] && ps[m + 1].0 != name);
        if k == ps.len() {
            assert(forall|m: int|
                0 <= m < ps.len() - 1 ==> ps.drop_first()[m] == ps[m + 1] && ps[m + 1].0 != name);
            lemma_find_prof_at(ps.drop_first(), name, k - 1);
        } else {
            assert(ps.drop_first()[k - 1] == ps[k]);
            lemma_find_prof_at(ps.drop_first(), name, k - 1);
        }
    }
}

/// Sets the username of `name`, materializing the profile if absent.
pub open spec fn set_username(ps: Seq<(Seq<u8>, ProfileV)>, name: Seq<u8>, v: Seq<u8>) -> Seq<
    (Seq<u8>, ProfileV),
> {
    let i = find_prof(ps, name) as int;
    if i < ps.len() {
        ps.update(i, (name, ProfileV { username: v, ..ps[i].1 }))
    } else {
        ps.push((name, ProfileV { username: v, ..empty_profile() }))
    }
}

/// Sets the email of `name`, materializing the profile if absent.
pub open spec fn set_email(ps: Seq<(Seq<u8>, ProfileV)>, name: Seq<u8>, v: Seq<u8>) -> Seq<
    (Seq<u8>, ProfileV),
> {
    let i = find_prof(ps, name) as int;
    if i < ps.len() {
        ps.update(i, (name, ProfileV { email: v, ..ps[i].1 }))
    } else {
        ps.push((name, ProfileV { email: v, ..empty_profile() }))
    }
}

/// Sets the SSH key path of `name`, materializing the profile if absent.
pub open spec fn set_ssh_key(ps: Seq<(Seq<u8>, ProfileV)>, name: Seq<u8>, v: Seq<u8>) -> Seq<
    (Seq<u8>, ProfileV),
> {
    let i = find_prof(ps, name) as int;
    if i < ps.len() {
        ps.update(i, (name, ProfileV { ssh_key: v, ..ps[i].1 }))
    } else {
        ps.push((name, ProfileV { ssh_key: v, ..empty_profile() }))
    }
}

/// One line of the store file, applied to the parser state: blank lines and
/// `#` comments are skipped, `[name]` opens a section, `key=value` lines set
/// a path (outside sections) or a profile field (inside one), and anything
/// else is ignored.
pub open spec fn pstep(st: ParseState, line: Seq<u8>) -> ParseState {
    let tr = trim(line);
    if tr.len() == 0 || tr[0] == 35u8 {
        st
    } else if tr.len() >= 2 && tr[0] == 91u8 && tr.last() == 93u8 {
        ParseState { cur: Some(tr.subrange(1, tr.len() - 1)), ..st }
    } else {
        let eq = find_byte(tr, 61u8) as int;
        if eq >= tr.len() {
            st
        } else {
            let key = tr.take(eq);
            let val = tr.skip(eq + 1);
            if st.cur is None && key == key_ssh_config() {
                ParseState { ssh: Some(val), ..st }
            } else if st.cur is None && key == key_ghp_config() {
                ParseState { ghp: Some(val), ..st }
            } else if st.cur is Some && key == key_username() {
                ParseState { profiles: set_username(st.profiles, st.cur->0, val), ..st }
            } else if st.cur is Some && key == key_email() {
                ParseState { profiles: set_email(st.profiles, st.cur->0, val), ..st }
            } else if st.cur is Some && key == key_ssh_key() {
                ParseState { profiles: set_ssh_key(st.profiles, st.cur->0, val), ..st }
            } else {
                st
            }
        }
    }
}

/// The parser state after all of `ls`.
pub open spec fn pfold(st: ParseState, ls: Seq<Seq<u8>>) -> ParseState
    decreases ls.len(),
{
    if ls.len() == 0 {
        st
    } else {
        pfold(pstep(st, ls[0]), ls.drop_first())
    }
}

/// Folding one more line applies one more step.
pub proof fn lemma_pfold_push(st: ParseState, ls: Seq<Seq<u8>>, l: Seq<u8>)
    ensures
        pfold(st, ls.push(l)) == pstep(pfold(st, ls), l),
    decreases ls.len(),
{
    if ls.len() == 0 {
        assert(ls.push(l)[0] == l);
        assert(ls.push(l).drop_first() =~= Seq::<Seq<u8>>::empty());
        assert(pfold(pstep(st, l), Seq::<Seq<u8>>::empty()) == pstep(st, l));
        assert(pfold(st, ls.push(l)) == pstep(st, l));
    } else {
        assert(ls.push(l)[0] == ls[0]);
        assert(ls.push(l).drop_first() =~= ls.drop_first().push(l));
        lemma_pfold_push(pstep(st, ls[0]), ls.drop_first(), l);
    }
}

/// Removing an element and inserting another at the same place is an update.
pub proof fn lemma_remove_insert_update<A>(s: Seq<A>, i: int, x: A)
    requires
        0 <= i < s.len(),
    ensures
        s.remove(i).insert(i, x) == s.update(i, x),
{
    s.remove_ensures(i);
    s.remove(i).insert_ensures(i, x);
    assert(s.remove(i).insert(i, x) =~= s.update(i, x));
}

/// Folding a concatenation folds the parts in turn.
pub proof fn lemma_pfold_concat(st: ParseState, a: Seq<Seq<u8>>, b: Seq<Seq<u8>>)
    ensures
        pfold(st, a + b) == pfold(pfold(st, a), b),
    decreases a.len(),
{
    if a.len() == 0 {
        assert(a + b =~= b);
    } else {
        assert((a + b)[0] == a[0]);
        assert((a + b).drop_first() =~= a.drop_first() + b);
        lemma_pfold_concat(pstep(st, a[0]), a.drop_first(), b);
    }
}

/// A step never breaks name uniqueness.
pub proof fn lemma_pstep_wf(st: ParseState, line: Seq<u8>)
    requires
        forall|i: int, j: int|
            0 <= i < j < st.profiles.len() ==> st.profiles[i].0 != st.profiles[j].0,
    ensures
        forall|i: int, j: int|
            0 <= i < j < pstep(st, line).profiles.len() ==> pstep(st, line).profiles[i].0 != pstep(
                st,
                line,
            ).profiles[j].0,
{
    let ps = st.profiles;
    let qs = pstep(st, line).profiles;
    if qs != ps {
        let name = st.cur->0;
        lemma_find_prof_props(ps, name);
        let k = find_prof(ps, name) as int;
        assert forall|i: int, j: int| 0 <= i < j < qs.len() implies qs[i].0 != qs[j].0 by {
            if k < ps.len() {
                assert(qs[i].0 == ps[i].0 && qs[j].0 == ps[j].0);
            } else {
                if j < ps.len() {
                    assert(qs[i].0 == ps[i].0 && qs[j].0 == ps[j].0);
                } else {
                    assert(qs[j].0 == name);
                    assert(qs[i].0 == ps[i].0);
                }
            }
        }
    }
}

/// A fold never breaks name uniqueness.
pub proof fn lemma_pfold_wf(st: ParseState, ls: Seq<Seq<u8>>)
    requires
        forall|i: int, j: int|
            0 <= i < j < st.profiles.len() ==> st.profiles[i].0 != st.profiles[j].0,
    ensures
        forall|i: int, j: int|
            0 <= i < j < pfold(st, ls).profiles.len() ==> pfold(st, ls).profiles[i].0 != pfold(
                st,
                ls,
            ).profiles[j].0,
    decreases ls.len(),
{
    if ls.len() != 0 {
        lemma_pstep_wf(st, ls[0]);
        lemma_pfold_wf(pstep(st, ls[0]), ls.drop_first());
    }
}

/// The profiles parsed from `t`, in order of first appearance.
pub open spec fn parse_profiles(t: Seq<u8>) -> Seq<(Seq<u8>, ProfileV)> {
    pfold(init_state(), lines_of(t)).profiles
}

/// The store parsed from `t`, with `fs` and `fg` as the paths when the text
/// does not set them.
pub open spec fn parse_spec(t: Seq<u8>, fs: Seq<u8>, fg: Seq<u8>) -> ConfigV {
    let st = pfold(init_state(), lines_of(t));
    ConfigV {
        ssh_config_path: if st.ssh is Some {
            st.ssh->0
        } else {
            fs
        },
        ghp_config_path: if st.ghp is Some {
            st.ghp->0
        } else {
            fg
        },
        profiles: st.profiles,
    }
}

impl Config {
    /// Parses the store file format. Never fails: malformed lines are
    /// skipped, and paths the text does not set fall back to the given ones.
    pub fn parse_config(content: &[u8], fallback_ssh: Vec<u8>, fallback_ghp: Vec<u8>) -> (c:
        Config)
        ensures
            c@ == parse_spec(content@, fallback_ssh@, fallback_ghp@),
            config_wf(c@),
    {
        let lines = split_lines(content);
        let ghost ls = lines@.map_values(|l: Vec<u8>| l@);
        let mut ssh: Option<Vec<u8>> = None;
        let mut ghp: Option<Vec<u8>> = None;
        let mut profiles: Vec<(Vec<u8>, Profile)> = Vec::new();
        let mut cur: Option<Vec<u8>> = None;
        let ghost st0 = init_state();
        proof {
            assert(ls.take(0) =~= Seq::<Seq<u8>>::empty());
            assert(vprofs(profiles@) =~= Seq::<(Seq<u8>, ProfileV)>::empty());
        }
        let mut i: usize = 0;
        while i < lines.len()
            invariant
                i <= lines@.len(),
                ls == lines@.map_values(|l: Vec<u8>| l@),
                pfold(st0, ls.take(i as int)) == (ParseState {
                    ssh: view_opt(ssh),
                    ghp: view_opt(ghp),
                    profiles: vprofs(profiles@),
                    cur: view_opt(cur),
                }),
                st0 == init_state(),
            decreases lines@.len() - i,
        {
            let ghost stpre = pfold(st0, ls.take(i as int));
            let line = lines[i].as_slice();
            let tr = trim_bytes(line);
            proof {
                lemma_pfold_push(st0, ls.take(i as int), ls[i as int]);
                assert(ls.take(i + 1) =~= ls.take(i as int).push(ls[i as int]));
            }
            if tr.len() == 0 || tr[0] == 35u8 {
                // comment or blank: skip
            } else if tr.len() >= 2 && tr[0] == 91u8 && tr[tr.len() - 1] == 93u8 {
                let name = crate::text::copy_range(tr.as_slice(), 1, tr.len() - 1);
                proof {
                    assert(trim(ls[i as int]).subrange(1, trim(ls[i as int]).len() - 1) =~= name@);
                }
                cur = Some(name);
            } else {
                let eq = find_eq_idx(tr.as_slice());
                if eq < tr.len() {
                    let key = crate::text::copy_range(tr.as_slice(), 0, eq);
                    let val = crate::text::copy_range(tr.as_slice(), eq + 1, tr.len());
                    let is_top = cur.is_none();
                    if is_top && crate::text::bytes_eq(key.as_slice(), lit_key_ssh_config().as_slice()) {
                        ssh = Some(val);
                    } else if is_top && crate::text::bytes_eq(key.as_slice(), lit_key_ghp_config().as_slice()) {
                        ghp = Some(val);
                    } else if !is_top && crate::text::bytes_eq(key.as_slice(), lit_key_username().as_slice()) {
                        upsert_username(&mut profiles, cur.as_ref().unwrap(), val);
                    } else if !is_top && crate::text::bytes_eq(key.as_slice(), lit_key_email().as_slice()) {
                        upsert_email(&mut profiles, cur.as_ref().unwrap(), val);
                    } else if !is_top && crate::text::bytes_eq(key.as_slice(), lit_key_ssh_key().as_slice()) {
                        upsert_ssh_key(&mut profiles, cur.as_ref().unwrap(), val);
                    }
                }
            }
            i = i + 1;
        }
        proof {
            assert(ls.take(lines@.len() as int) =~= ls);
            lemma_pfold_wf(st0, ls);
        }
        let c = Config {
            ssh_config_path: match ssh {
                Some(p) => p,
                None => fallback_ssh,
            },
            ghp_config_path: match ghp {
                Some(p) => p,
                None => fallback_ghp,
            },
            profiles,
        };
        proof {
            assert(c@.profiles == pfold(st0, ls).profiles);
            assert forall|i: int, j: int|
                0 <= i < j < c@.profiles.len() implies c@.profiles[i].0 != c@.profiles[j].0 by {
                assert(c@.profiles[i] == pfold(st0, ls).profiles[i]);
                assert(c@.profiles[j] == pfold(st0, ls).profiles[j]);
            }
        }
        c
    }
}

/// The image of an optional byte vector.
pub open spec fn view_opt(o: Option<Vec<u8>>) -> Option<Seq<u8>> {
    match o {
        Some(v) => Some(v@),
        None => None,
    }
}

/// Index of the first `=` in `s`, or `s.len()` if none.
fn find_eq_idx(s: &[u8]) -> (r: usize)
    ensures
        r == find_byte(s@, 61u8),
{
    let mut j: usize = 0;
    while j < s.len() && s[j] != 61u8
        invariant
            j <= s@.len(),
            forall|m: int| 0 <= m < j ==> s@[m] != 61u8,
        decreases s@.len() - j,
    {
        j = j + 1;
    }
    proof {
        lemma_find_byte_at(s@, 61u8, j as int);
    }
    j
}

/// Sets the username of `name` in the profile list, materializing it last
/// when absent.
fn upsert_username(profiles: &mut Vec<(Vec<u8>, Profile)>, name: &Vec<u8>, v: Vec<u8>)
    ensures
        vprofs(final(profiles)@) == set_username(vprofs(old(profiles)@), name@, v@),
{
    let ghost ps = vprofs(old(profiles)@);
    let idx = find_prof_idx(profiles, name.as_slice());
    if idx < profiles.len() {
        let (nm, mut prof) = profiles.remove(idx);
        prof.username = v;
        let ghost x = (nm, prof);
        profiles.insert(idx, (nm, prof));
        proof {
            lemma_find_prof_props(ps, name@);
            lemma_remove_insert_update(old(profiles)@, idx as int, x);
            assert(profiles@ == old(profiles)@.update(idx as int, x));
            assert(x.0@ == name@);
            assert(x.1@ == (ProfileV { username: v@, ..ps[idx as int].1 }));
            assert(vprofs(profiles@) =~= ps.update(
                idx as int,
                (name@, ProfileV { username: v@, ..ps[idx as int].1 }),
            ));
        }
    } else {
        profiles.push((clone_bytes(name), Profile { username: v, email: Vec::new(), ssh_key: Vec::new() }));
        proof {
            assert(vprofs(profiles@) =~= ps.push(
                (name@, ProfileV { username: v@, ..empty_profile() }),
            ));
        }
    }
}

/// Sets the email of `name` in the profile list, materializing it last when
/// absent.
fn upsert_email(profiles: &mut Vec<(Vec<u8>, Profile)>, name: &Vec<u8>, v: Vec<u8>)
    ensures
        vprofs(final(profiles)@) == set_email(vprofs(old(profiles)@), name@, v@),
{
    let ghost ps = vprofs(old(profiles)@);
    let idx = find_prof_idx(profiles, name.as_slice());
    if idx < profiles.len() {
        let (nm, mut prof) = profiles.remove(idx);
        prof.email = v;
        let ghost x = (nm, prof);
        profiles.insert(idx, (nm, prof));
        proof {
            lemma_find_prof_props(ps, name@);
            lemma_remove_insert_update(old(profiles)@, idx as int, x);
            assert(profiles@ == old(profiles)@.update(idx as int, x));
            assert(x.0@ == name@);
            assert(x.1@ == (ProfileV { email: v@, ..ps[idx as int].1 }));
            assert(vprofs(profiles@) =~= ps.update(
                idx as int,
                (name@, ProfileV { email: v@, ..ps[idx as int].1 }),
            ));
        }
    } else {
        profiles.push((clone_bytes(name), Profile { username: Vec::new(), email: v, ssh_key: Vec::new() }));
        proof {
            assert(vprofs(profiles@) =~= ps.push(
                (name@, ProfileV { email: v@, ..empty_profile() }),
            ));
        }
    }
}

/// Sets the SSH key path of `name` in the profile list, materializing it
/// last when absent.
fn upsert_ssh_key(profiles: &mut Vec<(Vec<u8>, Profile)>, name: &Vec<u8>, v: Vec<u8>)
    ensures
        vprofs(final(profiles)@) == set_ssh_key(vprofs(old(profiles)@), name@, v@),
{
    let ghost ps = vprofs(old(profiles)@);
    let idx = find_prof_idx(profiles, name.as_slice());
    if idx < profiles.len() {
        let (nm, mut prof) = profiles.remove(idx);
        prof.ssh_key = v;
        let ghost x = (nm, prof);
        profiles.insert(idx, (nm, prof));
        proof {
            lemma_find_prof_props(ps, name@);
            lemma_remove_insert_update(old(profiles)@, idx as int, x);
            assert(profiles@ == old(profiles)@.update(idx as int, x));
            assert(x.0@ == name@);
            assert(x.1@ == (ProfileV { ssh_key: v@, ..ps[idx as int].1 }));
            assert(vprofs(profiles@) =~= ps.update(
                idx as int,
                (name@, ProfileV { ssh_key: v@, ..ps[idx as int].1 }),
            ));
        }
    } else {
        profiles.push((clone_bytes(name), Profile { username: Vec::new(), email: Vec::new(), ssh_key: v }));
        proof {
            assert(vprofs(profiles@) =~= ps.push(
                (name@, ProfileV { ssh_key: v@, ..empty_profile() }),
            ));
        }
    }
}

/// Index of the profile named `name`, or the length if absent.
fn find_prof_idx(profiles: &Vec<(Vec<u8>, Profile)>, name: &[u8]) -> (r: usize)
    ensures
        r == find_prof(vprofs(profiles@), name@),
{
    let ghost ps = vprofs(profiles@);
    let mut i: usize = 0;
    while i < profiles.len()
        invariant
            i <= profiles@.len(),
            ps == vprofs(profiles@),
            forall|m: int| 0 <= m < i ==> ps[m].0 != name@,
        decreases profiles@.len() - i,
    {
        if crate::text::bytes_eq(profiles[i].0.as_slice(), name) {
            proof {
                lemma_find_prof_at(ps, name@, i as int);
            }
            return i;
        }
        i = i + 1;
    }
    proof {
        lemma_find_prof_at(ps, name@, ps.len() as int);
    }
    i
}

/// A verified field-for-field copy of a profile.
pub fn clone_profile(p: &Profile) -> (r: Profile)
    ensures
        r@ == p@,
{
    Profile {
        username: clone_bytes(&p.username),
        email: clone_bytes(&p.email),
        ssh_key: clone_bytes(&p.ssh_key),
    }
}

/// A verified byte-for-byte copy.
pub fn clone_bytes(v: &Vec<u8>) -> (r: Vec<u8>)
    ensures
        r@ == v@,
{
    let r = crate::text::copy_range(v.as_slice(), 0, v.len());
    proof {
        assert(v@.subrange(0, v@.len() as int) =~= v@);
    }
    r
}


// ---------------------------------------------------------------------------
// Serialization.
// ---------------------------------------------------------------------------

/// The five lines of one profile section: header, the three fields, blank.
pub open spec fn profile_lines(name: Seq<u8>, p: ProfileV) -> Seq<Seq<u8>> {
    seq![
        seq![91u8] + name + seq![93u8],
        key_username() + seq![61u8] + p.username,
        key_email() + seq![61u8] + p.email,
        key_ssh_key() + seq![61u8] + p.ssh_key,
        Seq::<u8>::empty(),
    ]
}

/// The sections of all profiles, in stored order.
pub open spec fn profiles_lines(ps: Seq<(Seq<u8>, ProfileV)>) -> Seq<Seq<u8>>
    decreases ps.len(),
{
    if ps.len() == 0 {
        Seq::empty()
    } else {
        profile_lines(ps[0].0, ps[0].1) + profiles_lines(ps.drop_first())
    }
}

/// The two path lines and the blank line that precede the sections.
pub open spec fn header_lines(c: ConfigV) -> Seq<Seq<u8>> {
    seq![
        key_ssh_config() + seq![61u8] + c.ssh_config_path,
        key_ghp_config() + seq![61u8] + c.ghp_config_path,
        Seq::<u8>::empty(),
    ]
}

/// Every line of the serialized store, in order.
pub open spec fn config_lines(c: ConfigV) -> Seq<Seq<u8>> {
    header_lines(c) + profiles_lines(c.profiles)
}

/// The serialized store: its lines, each newline-terminated.
pub open spec fn serialize_spec(c: ConfigV) -> Seq<u8> {
    unlines(config_lines(c))
}

/// One more profile appends one more section.
pub proof fn lemma_profiles_lines_push(ps: Seq<(Seq<u8>, ProfileV)>, x: (Seq<u8>, ProfileV))
    ensures
        profiles_lines(ps.push(x)) == profiles_lines(ps) + profile_lines(x.0, x.1),
    decreases ps.len(),
{
    if ps.len() == 0 {
        assert(ps.push(x)[0] == x);
        assert(ps.push(x).drop_first() =~= Seq::<(Seq<u8>, ProfileV)>::empty());
        assert(profiles_lines(Seq::<(Seq<u8>, ProfileV)>::empty()) == Seq::<Seq<u8>>::empty());
        assert(profiles_lines(ps.push(x)) =~= profiles_lines(ps) + profile_lines(x.0, x.1));
    } else {
        assert(ps.push(x)[0] == ps[0]);
        assert(ps.push(x).drop_first() =~= ps.drop_first().push(x));
        lemma_profiles_lines_push(ps.drop_first(), x);
        assert(profiles_lines(ps.push(x)) =~= profiles_lines(ps) + profile_lines(x.0, x.1));
    }
}

impl Config {
    /// Serializes the store deterministically: the two path lines, a blank
    /// line, then each profile section in stored order.
    pub fn serialize(&self) -> (r: Vec<u8>)
        ensures
            r@ == serialize_spec(self@),
    {
        let mut out: Vec<u8> = Vec::new();
        let ghost mut done: Seq<Seq<u8>> = Seq::<Seq<u8>>::empty();
        proof {
            assert(unlines(done) == Seq::<u8>::empty());
        }
        let mut l = lit_key_ssh_config();
        l.push(61u8);
        crate::text::push_bytes(&mut l, self.ssh_config_path.as_slice());
        crate::text::push_bytes(&mut out, l.as_slice());
        out.push(10u8);
        proof {
            crate::text::lemma_unlines_push(done, l@);
            done = done.push(l@);
            assert(l@ =~= key_ssh_config() + seq![61u8] + self@.ssh_config_path);
            assert(out@ =~= unlines(done));
        }
        let mut l2 = lit_key_ghp_config();
        l2.push(61u8);
        crate::text::push_bytes(&mut l2, self.ghp_config_path.as_slice());
        crate::text::push_bytes(&mut out, l2.as_slice());
        out.push(10u8);
        proof {
            crate::text::lemma_unlines_push(done, l2@);
            done = done.push(l2@);
            assert(l2@ =~= key_ghp_config() + seq![61u8] + self@.ghp_config_path);
            assert(out@ =~= unlines(done));
        }
        out.push(10u8);
        proof {
            crate::text::lemma_unlines_push(done, Seq::<u8>::empty());
            done = done.push(Seq::<u8>::empty());
            assert(out@ =~= unlines(done));
            assert(done =~= header_lines(self@));
        }
        let ghost ps = vprofs(self.profiles@);
        proof {
            assert(ps.take(0) =~= Seq::<(Seq<u8>, ProfileV)>::empty());
            assert(profiles_lines(ps.take(0)) == Seq::<Seq<u8>>::empty());
            assert(done =~= header_lines(self@) + profiles_lines(ps.take(0)));
        }
        let mut k: usize = 0;
        while k < self.profiles.len()
            invariant
                k <= self.profiles@.len(),
                ps == vprofs(self.profiles@),
                out@ == unlines(done),
                done == header_lines(self@) + profiles_lines(ps.take(k as int)),
            decreases self.profiles@.len() - k,
        {
            let ghost done0 = done;
            let mut h: Vec<u8> = Vec::new();
            h.push(91u8);
            crate::text::push_bytes(&mut h, self.profiles[k].0.as_slice());
            h.push(93u8);
            crate::text::push_bytes(&mut out, h.as_slice());
            out.push(10u8);
            proof {
                crate::text::lemma_unlines_push(done, h@);
                done = done.push(h@);
                assert(out@ =~= unlines(done));
            }
            let mut lu = lit_key_username();
            lu.push(61u8);
            crate::text::push_bytes(&mut lu, self.profiles[k].1.username.as_slice());
            crate::text::push_bytes(&mut out, lu.as_slice());
            out.push(10u8);
            proof {
                crate::text::lemma_unlines_push(done, lu@);
                done = done.push(lu@);
                assert(out@ =~= unlines(done));
            }
            let mut le = lit_key_email();
            le.push(61u8);
            crate::text::push_bytes(&mut le, self.profiles[k].1.email.as_slice());
            crate::text::push_bytes(&mut out, le.as_slice());
            out.push(10u8);
            proof {
                crate::text::lemma_unlines_push(done, le@);
                done = done.push(le@);
                assert(out@ =~= unlines(done));
            }
            let mut lk = lit_key_ssh_key();
            lk.push(61u8);
            crate::text::push_bytes(&mut lk, self.profiles[k].1.ssh_key.as_slice());
            crate::text::push_bytes(&mut out, lk.as_slice());
            out.push(10u8);
            proof {
                crate::text::lemma_unlines_push(done, lk@);
                done = done.push(lk@);
                assert(out@ =~= unlines(done));
            }
            out.push(10u8);
            proof {
                crate::text::lemma_unlines_push(done, Seq::<u8>::empty());
                done = done.push(Seq::<u8>::empty());
                assert(out@ =~= unlines(done));
            }
            k = k + 1;
            proof {
                assert(ps.take(k as int) =~= ps.take(k - 1).push(ps[k - 1]));
                lemma_profiles_lines_push(ps.take(k - 1), ps[k - 1]);
                assert(h@ =~= seq![91u8] + ps[k - 1].0 + seq![93u8]);
                assert(lu@ =~= key_username() + seq![61u8] + ps[k - 1].1.username);
                assert(le@ =~= key_email() + seq![61u8] + ps[k - 1].1.email);
                assert(lk@ =~= key_ssh_key() + seq![61u8] + ps[k - 1].1.ssh_key);
                assert(done =~= header_lines(self@) + profiles_lines(ps.take(k as int)));
            }
        }
        proof {
            assert(ps.take(self.profiles@.len() as int) =~= ps);
            assert(done =~= config_lines(self@));
        }
        out
    }

    /// Inserts the profile under `name`, overwriting any existing entry of
    /// that name in place; a new name goes to the end.
    pub fn add_profile(&mut self, name: Vec<u8>, username: Vec<u8>, email: Vec<u8>, ssh_key: Vec<u8>)
        ensures
            final(self)@.ssh_config_path == old(self)@.ssh_config_path,
            final(self)@.ghp_config_path == old(self)@.ghp_config_path,
            final(self)@.profiles == insert_profile(
                old(self)@.profiles,
                name@,
                ProfileV { username: username@, email: email@, ssh_key: ssh_key@ },
            ),
            config_wf(old(self)@) ==> config_wf(final(self)@),
    {
        let ghost ps = vprofs(self.profiles@);
        let ghost pv = ProfileV { username: username@, email: email@, ssh_key: ssh_key@ };
        let p = Profile { username, email, ssh_key };
        let idx = find_prof_idx(&self.profiles, name.as_slice());
        if idx < self.profiles.len() {
            let (nm, _replaced) = self.profiles.remove(idx);
            let ghost x = (nm, p);
            self.profiles.insert(idx, (nm, p));
            proof {
                lemma_find_prof_props(ps, name@);
                lemma_remove_insert_update(old(self).profiles@, idx as int, x);
                assert(self.profiles@ == old(self).profiles@.update(idx as int, x));
                assert(x.0@ == name@ && x.1@ == pv);
                assert(vprofs(self.profiles@) =~= ps.update(idx as int, (name@, pv)));
                if config_wf(old(self)@) {
                    assert forall|i: int, j: int|
                        0 <= i < j < ps.len() implies ps[i].0 != ps[j].0 by {
                        assert(old(self)@.profiles[i] == ps[i]);
                        assert(old(self)@.profiles[j] == ps[j]);
                    }
                    lemma_insert_profile_wf(ps, name@, pv);
                }
            }
        } else {
            self.profiles.push((name, p));
            proof {
                assert(vprofs(self.profiles@) =~= ps.push((name@, pv)));
                if config_wf(old(self)@) {
                    assert forall|i: int, j: int|
                        0 <= i < j < ps.len() implies ps[i].0 != ps[j].0 by {
                        assert(old(self)@.profiles[i] == ps[i]);
                        assert(old(self)@.profiles[j] == ps[j]);
                    }
                    lemma_insert_profile_wf(ps, name@, pv);
                }
            }
        }
    }

    /// Removes the profile under `name`. Reports whether it was present;
    /// when it was not, the store is left exactly as it was.
    pub fn remove_profile(&mut self, name: &[u8]) -> (found: bool)
        ensures
            found == (find_prof(old(self)@.profiles, name@) < old(self)@.profiles.len()),
            found == exists|i: int|
                0 <= i < old(self)@.profiles.len() && old(self)@.profiles[i].0 == name@,
            found ==> final(self)@.ssh_config_path == old(self)@.ssh_config_path
                && final(self)@.ghp_config_path == old(self)@.ghp_config_path
                && final(self)@.profiles == old(self)@.profiles.remove(
                find_prof(old(self)@.profiles, name@) as int,
            ),
            !found ==> *final(self) == *old(self),
            config_wf(old(self)@) ==> config_wf(final(self)@),
    {
        let ghost ps = vprofs(self.profiles@);
        let idx = find_prof_idx(&self.profiles, name);
        proof {
            lemma_find_prof_props(ps, name@);
        }
        if idx < self.profiles.len() {
            let _removed = self.profiles.remove(idx);
            proof {
                old(self).profiles@.remove_ensures(idx as int);
                ps.remove_ensures(idx as int);
                assert(vprofs(self.profiles@) =~= ps.remove(idx as int));
                assert(ps[idx as int].0 == name@);
                if config_wf(old(self)@) {
                    assert forall|i: int, j: int|
                        0 <= i < j < self@.profiles.len() implies self@.profiles[i].0
                        != self@.profiles[j].0 by {
                        let a: int = if i < idx { i } else { i + 1 };
                        let b: int = if j < idx { j } else { j + 1 };
                        assert(self@.profiles == ps.remove(idx as int));
                        assert(ps.remove(idx as int)[i] == ps[a]);
                        assert(ps.remove(idx as int)[j] == ps[b]);
                        assert(old(self)@.profiles[a] == ps[a]);
                        assert(old(self)@.profiles[b] == ps[b]);
                        assert(ps[a].0 != ps[b].0);
                    }
                }
            }
            true
        } else {
            proof {
                assert(forall|i: int|
                    0 <= i < ps.len() ==> ps[i].0 != name@);
            }
            false
        }
    }

    /// The profile stored under `name`, if any, as a copy.
    pub fn find_profile(&self, name: &[u8]) -> (r: Option<Profile>)
        ensures
            match r {
                Some(p) => find_prof(self@.profiles, name@) < self@.profiles.len() && p@
                    == self@.profiles[find_prof(self@.profiles, name@) as int].1,
                None => find_prof(self@.profiles, name@) == self@.profiles.len(),
            },
    {
        let idx = find_prof_idx(&self.profiles, name);
        if idx < self.profiles.len() {
            let p = clone_profile(&self.profiles[idx].1);
            proof {
                assert(find_prof(self@.profiles, name@) == idx);
                assert(self@.profiles[idx as int] == (
                    self.profiles@[idx as int].0@,
                    self.profiles@[idx as int].1@,
                ));
                assert(p@ == self@.profiles[find_prof(self@.profiles, name@) as int].1);
            }
            Some(p)
        } else {
            proof {
                lemma_find_prof_props(self@.profiles, name@);
            }
            None
        }
    }

    /// The SSH config text after switching to `name`: the `Host github.com`
    /// stanza replaced by a block built from that profile's username and key
    /// path. Fails with `ProfileNotFound`, naming the profile, exactly when
    /// the store holds no profile of that name.
    pub fn switch_profile_content(&self, name: &[u8], ssh_text: &[u8]) -> (r: Result<
        Vec<u8>,
        GhpError,
    >)
        ensures
            ({
                let ps = self@.profiles;
                let i = find_prof(ps, name@) as int;
                &&& i < ps.len() ==> (r matches Ok(v) && v@ == crate::editor::edit_spec(
                    ssh_text@,
                    crate::editor::github_host(),
                    switch_block_spec(ps[i].1),
                ))
                &&& i >= ps.len() ==> (r matches Err(e) && e matches GhpError::ProfileNotFound(n)
                    && n@ == name@)
            }),
    {
        match self.find_profile(name) {
            Some(p) => {
                let block = switch_host_block(&p);
                match crate::editor::update_github_host_in_ssh_config(ssh_text, block.as_slice()) {
                    Ok(v) => Ok(v),
                    Err(e) => Err(e),
                }
            },
            None => {
                let nv = crate::text::copy_range(name, 0, name.len());
                proof {
                    assert(nv@ =~= name@);
                }
                Err(GhpError::ProfileNotFound(nv))
            },
        }
    }
}

/// The profile list with `p` stored under `name`: overwritten in place when
/// the name exists, appended otherwise.
pub open spec fn insert_profile(ps: Seq<(Seq<u8>, ProfileV)>, name: Seq<u8>, p: ProfileV) -> Seq<
    (Seq<u8>, ProfileV),
> {
    let i = find_prof(ps, name) as int;
    if i < ps.len() {
        ps.update(i, (name, p))
    } else {
        ps.push((name, p))
    }
}

/// Inserting never breaks name uniqueness.
pub proof fn lemma_insert_profile_wf(ps: Seq<(Seq<u8>, ProfileV)>, name: Seq<u8>, p: ProfileV)
    requires
        forall|i: int, j: int| 0 <= i < j < ps.len() ==> ps[i].0 != ps[j].0,
    ensures
        forall|i: int, j: int|
            0 <= i < j < insert_profile(ps, name, p).len() ==> insert_profile(ps, name, p)[i].0
                != insert_profile(ps, name, p)[j].0,
{
    let qs = insert_profile(ps, name, p);
    lemma_find_prof_props(ps, name);
    let k = find_prof(ps, name) as int;
    assert forall|i: int, j: int| 0 <= i < j < qs.len() implies qs[i].0 != qs[j].0 by {
        if k < ps.len() {
            assert(qs[i].0 == ps[i].0 && qs[j].0 == ps[j].0);
        } else if j < ps.len() {
            assert(qs[i].0 == ps[i].0 && qs[j].0 == ps[j].0);
        } else {
            assert(qs[j].0 == name && qs[i].0 == ps[i].0);
        }
    }
}

// ---------------------------------------------------------------------------
// The SSH config blocks the commands write.
// ---------------------------------------------------------------------------

/// `  HostName `
pub open spec fn indent_hostname() -> Seq<u8> {
    seq![32u8, 32u8, 72u8, 111u8, 115u8, 116u8, 78u8, 97u8, 109u8, 101u8, 32u8]
}

/// `  User `
pub open spec fn indent_user() -> Seq<u8> {
    seq![32u8, 32u8, 85u8, 115u8, 101u8, 114u8, 32u8]
}

/// `  IdentityFile `
pub open spec fn indent_identity_file() -> Seq<u8> {
    seq![32u8, 32u8, 73u8, 100u8, 101u8, 110u8, 116u8, 105u8, 116u8, 121u8, 70u8, 105u8, 108u8, 101u8, 32u8]
}

/// The stanza body shared by both blocks: the `HostName`, `User` and
/// `IdentityFile` settings, one per line, each indented two spaces.
pub open spec fn stanza_body(username: Seq<u8>, ssh_key: Seq<u8>) -> Seq<u8> {
    seq![nl()] + indent_hostname() + crate::editor::github_host() + seq![nl()] + indent_user()
        + username + seq![nl()] + indent_identity_file() + ssh_key + seq![nl()]
}

/// The canonical `Host github.com` block written on switch.
pub open spec fn switch_block_spec(p: ProfileV) -> Seq<u8> {
    crate::editor::host_prefix() + crate::editor::github_host() + stanza_body(p.username, p.ssh_key)
}

/// The per-profile `Host github.com-<name>` alias stanza appended on add,
/// followed by a blank line.
pub open spec fn alias_stanza_spec(name: Seq<u8>, username: Seq<u8>, ssh_key: Seq<u8>) -> Seq<u8> {
    crate::editor::host_prefix() + crate::editor::github_host() + seq![45u8] + name + stanza_body(
        username,
        ssh_key,
    ) + seq![nl()]
}

/// Appends `Host github.com`.
fn push_host_github(out: &mut Vec<u8>)
    ensures
        final(out)@ == old(out)@ + crate::editor::host_prefix() + crate::editor::github_host(),
{
    out.push(72u8);
    out.push(111u8);
    out.push(115u8);
    out.push(116u8);
    out.push(32u8);
    out.push(103u8);
    out.push(105u8);
    out.push(116u8);
    out.push(104u8);
    out.push(117u8);
    out.push(98u8);
    out.push(46u8);
    out.push(99u8);
    out.push(111u8);
    out.push(109u8);
    proof {
        assert(out@ =~= old(out)@ + crate::editor::host_prefix()
            + crate::editor::github_host());
    }
}

/// Appends the stanza body for the given username and key path.
fn push_stanza_body(out: &mut Vec<u8>, username: &[u8], ssh_key: &[u8])
    ensures
        final(out)@ == old(out)@ + stanza_body(username@, ssh_key@),
{
    out.push(10u8);
    out.push(32u8);
    out.push(32u8);
    out.push(72u8);
    out.push(111u8);
    out.push(115u8);
    out.push(116u8);
    out.push(78u8);
    out.push(97u8);
    out.push(109u8);
    out.push(101u8);
    out.push(32u8);
    out.push(103u8);
    out.push(105u8);
    out.push(116u8);
    out.push(104u8);
    out.push(117u8);
    out.push(98u8);
    out.push(46u8);
    out.push(99u8);
    out.push(111u8);
    out.push(109u8);
    out.push(10u8);
    out.push(32u8);
    out.push(32u8);
    out.push(85u8);
    out.push(115u8);
    out.push(101u8);
    out.push(114u8);
    out.push(32u8);
    crate::text::push_bytes(out, username);
    out.push(10u8);
    out.push(32u8);
    out.push(32u8);
    out.push(73u8);
    out.push(100u8);
    out.push(101u8);
    out.push(110u8);
    out.push(116u8);
    out.push(105u8);
    out.push(116u8);
    out.push(121u8);
    out.push(70u8);
    out.push(105u8);
    out.push(108u8);
    out.push(101u8);
    out.push(32u8);
    crate::text::push_bytes(out, ssh_key);
    out.push(10u8);
    proof {
        assert(out@ =~= old(out)@ + stanza_body(username@, ssh_key@));
    }
}

/// The canonical `Host github.com` block for one profile.
pub fn switch_host_block(p: &Profile) -> (r: Vec<u8>)
    ensures
        r@ == switch_block_spec(p@),
{
    let mut out: Vec<u8> = Vec::new();
    push_host_github(&mut out);
    push_stanza_body(&mut out, p.username.as_slice(), p.ssh_key.as_slice());
    proof {
        assert(out@ =~= switch_block_spec(p@));
    }
    out
}

/// The `Host github.com-<name>` alias stanza appended when a profile is
/// added.
pub fn alias_stanza(name: &[u8], username: &[u8], ssh_key: &[u8]) -> (r: Vec<u8>)
    ensures
        r@ == alias_stanza_spec(name@, username@, ssh_key@),
{
    let mut out: Vec<u8> = Vec::new();
    push_host_github(&mut out);
    out.push(45u8);
    crate::text::push_bytes(&mut out, name);
    push_stanza_body(&mut out, username, ssh_key);
    out.push(10u8);
    proof {
        assert(out@ =~= alias_stanza_spec(name@, username@, ssh_key@));
    }
    out
}


// ---------------------------------------------------------------------------
// The round trip: parsing a serialized store restores it.
// ---------------------------------------------------------------------------

/// A value that survives one line of the store file: it holds no line
/// separator and does not end in whitespace the parser would trim away.
pub open spec fn value_clean(v: Seq<u8>) -> bool {
    line_free(v) && (v.len() > 0 ==> !is_ws(v.last()))
}

/// A profile entry whose name and fields survive their lines.
pub open spec fn profile_clean(pr: (Seq<u8>, ProfileV)) -> bool {
    &&& line_free(pr.0)
    &&& value_clean(pr.1.username)
    &&& value_clean(pr.1.email)
    &&& value_clean(pr.1.ssh_key)
}

/// The whole store fits the file format.
pub open spec fn config_serializable(c: ConfigV) -> bool {
    &&& value_clean(c.ssh_config_path)
    &&& value_clean(c.ghp_config_path)
    &&& forall|i: int| 0 <= i < c.profiles.len() ==> profile_clean(#[trigger] c.profiles[i])
}

/// How the parser reads a `key=value` line whose key holds no `=` and whose
/// value is clean: it splits exactly at the written `=`.
proof fn lemma_kv_line_parse(key: Seq<u8>, v: Seq<u8>)
    requires
        key.len() > 0,
        !is_ws(key[0]),
        forall|m: int| 0 <= m < key.len() ==> key[m] != 61u8,
        value_clean(v),
    ensures
        ({
            let l = key + seq![61u8] + v;
            &&& trim(l) == l
            &&& l.len() > 0
            &&& l[0] == key[0]
            &&& find_byte(l, 61u8) == key.len()
            &&& l.take(key.len() as int) == key
            &&& l.skip(key.len() as int + 1) == v
        }),
{
    let l = key + seq![61u8] + v;
    assert(l[0] == key[0]);
    if v.len() > 0 {
        assert(l.last() == v.last());
    } else {
        assert(l.last() == 61u8);
    }
    lemma_trim_stable(l);
    assert(forall|m: int| 0 <= m < key.len() ==> l[m] == key[m]);
    assert(l[key.len() as int] == 61u8);
    lemma_find_byte_at(l, 61u8, key.len() as int);
    assert(l.take(key.len() as int) =~= key);
    assert(l.skip(key.len() as int + 1) =~= v);
}

/// The five lines of one section, folded: with the name fresh, they append
/// exactly the serialized profile and leave the cursor on the section.
proof fn lemma_pfold_profile_group(st: ParseState, name: Seq<u8>, p: ProfileV)
    requires
        line_free(name),
        value_clean(p.username),
        value_clean(p.email),
        value_clean(p.ssh_key),
        forall|k: int| 0 <= k < st.profiles.len() ==> st.profiles[k].0 != name,
    ensures
        pfold(st, profile_lines(name, p)) == (ParseState {
            ssh: st.ssh,
            ghp: st.ghp,
            profiles: st.profiles.push((name, p)),
            cur: Some(name),
        }),
{
    let l0 = seq![91u8] + name + seq![93u8];
    let l1 = key_username() + seq![61u8] + p.username;
    let l2 = key_email() + seq![61u8] + p.email;
    let l3 = key_ssh_key() + seq![61u8] + p.ssh_key;
    let l4 = Seq::<u8>::empty();
    let ls = profile_lines(name, p);
    assert(ls =~= seq![l0, l1, l2, l3, l4]);

    // Section header line: opens the section `name`.
    assert(l0[0] == 91u8 && l0.last() == 93u8);
    lemma_trim_stable(l0);
    assert(l0.subrange(1, l0.len() - 1) =~= name);
    let st1 = pstep(st, l0);
    assert(st1 == (ParseState { cur: Some(name), ..st }));

    // The three field lines, each splitting at its `=`.
    assert(forall|m: int| 0 <= m < key_username().len() ==> key_username()[m] != 61u8);
    assert(forall|m: int| 0 <= m < key_email().len() ==> key_email()[m] != 61u8);
    assert(forall|m: int| 0 <= m < key_ssh_key().len() ==> key_ssh_key()[m] != 61u8);
    lemma_kv_line_parse(key_username(), p.username);
    lemma_kv_line_parse(key_email(), p.email);
    lemma_kv_line_parse(key_ssh_key(), p.ssh_key);
    assert(key_username() != key_ssh_config() && key_username() != key_ghp_config());
    assert(key_email() != key_ssh_config() && key_email() != key_ghp_config());
    assert(key_ssh_key() != key_ssh_config() && key_ssh_key() != key_ghp_config());
    assert(key_username() != key_email() && key_username() != key_ssh_key() && key_email()
        != key_ssh_key());

    let x0 = (name, ProfileV { username: p.username, ..empty_profile() });
    let st2 = pstep(st1, l1);
    lemma_find_prof_at(st.profiles, name, st.profiles.len() as int);
    assert(st2 == (ParseState { cur: Some(name), profiles: st.profiles.push(x0), ..st }));

    let ps1 = st.profiles.push(x0);
    assert(forall|m: int| 0 <= m < st.profiles.len() ==> ps1[m] == st.profiles[m]);
    assert(ps1[st.profiles.len() as int].0 == name);
    lemma_find_prof_at(ps1, name, st.profiles.len() as int);
    let x1 = (name, ProfileV { username: p.username, email: p.email, ssh_key: Seq::empty() });
    let st3 = pstep(st2, l2);
    assert(ps1.update(st.profiles.len() as int, x1) =~= st.profiles.push(x1));
    assert(st3 == (ParseState { cur: Some(name), profiles: st.profiles.push(x1), ..st }));

    let ps2 = st.profiles.push(x1);
    assert(forall|m: int| 0 <= m < st.profiles.len() ==> ps2[m] == st.profiles[m]);
    assert(ps2[st.profiles.len() as int].0 == name);
    lemma_find_prof_at(ps2, name, st.profiles.len() as int);
    let st4 = pstep(st3, l3);
    assert(ps2.update(st.profiles.len() as int, (name, p)) =~= st.profiles.push((name, p)));
    assert(st4 == (ParseState { cur: Some(name), profiles: st.profiles.push((name, p)), ..st }));

    // Blank line: skipped.
    assert(trim(l4) =~= Seq::<u8>::empty());
    let st5 = pstep(st4, l4);
    assert(st5 == st4);

    // Chain the five steps through the fold.
    assert(ls.drop_first() =~= seq![l1, l2, l3, l4]);
    assert(seq![l1, l2, l3, l4].drop_first() =~= seq![l2, l3, l4]);
    assert(seq![l2, l3, l4].drop_first() =~= seq![l3, l4]);
    assert(seq![l3, l4].drop_first() =~= seq![l4]);
    assert(seq![l4].drop_first() =~= Seq::<Seq<u8>>::empty());
    assert(pfold(st, ls) == pfold(st1, seq![l1, l2, l3, l4]));
    assert(pfold(st1, seq![l1, l2, l3, l4]) == pfold(st2, seq![l2, l3, l4]));
    assert(pfold(st2, seq![l2, l3, l4]) == pfold(st3, seq![l3, l4]));
    assert(pfold(st3, seq![l3, l4]) == pfold(st4, seq![l4]));
    assert(pfold(st4, seq![l4]) == pfold(st5, Seq::<Seq<u8>>::empty()));
    assert(pfold(st5, Seq::<Seq<u8>>::empty()) == st5);
}

/// The three header lines, folded from the initial state: they set both
/// paths and nothing else.
proof fn lemma_pfold_header_lines(c: ConfigV)
    requires
        value_clean(c.ssh_config_path),
        value_clean(c.ghp_config_path),
    ensures
        pfold(init_state(), header_lines(c)) == (ParseState {
            ssh: Some(c.ssh_config_path),
            ghp: Some(c.ghp_config_path),
            profiles: Seq::empty(),
            cur: None,
        }),
{
    let l0 = key_ssh_config() + seq![61u8] + c.ssh_config_path;
    let l1 = key_ghp_config() + seq![61u8] + c.ghp_config_path;
    let l2 = Seq::<u8>::empty();
    let ls = header_lines(c);
    assert(ls =~= seq![l0, l1, l2]);

    assert(forall|m: int| 0 <= m < key_ssh_config().len() ==> key_ssh_config()[m] != 61u8);
    assert(forall|m: int| 0 <= m < key_ghp_config().len() ==> key_ghp_config()[m] != 61u8);
    lemma_kv_line_parse(key_ssh_config(), c.ssh_config_path);
    lemma_kv_line_parse(key_ghp_config(), c.ghp_config_path);
    assert(key_ssh_config()[0] != key_ghp_config()[0]);
    assert(key_ssh_config() != key_ghp_config());

    let st0 = init_state();
    let st1 = pstep(st0, l0);
    assert(st1 == (ParseState { ssh: Some(c.ssh_config_path), ..st0 }));
    let st2 = pstep(st1, l1);
    assert(st2 == (ParseState {
        ssh: Some(c.ssh_config_path),
        ghp: Some(c.ghp_config_path),
        ..st0
    }));
    assert(trim(l2) =~= Seq::<u8>::empty());
    let st3 = pstep(st2, l2);
    assert(st3 == st2);

    assert(ls.drop_first() =~= seq![l1, l2]);
    assert(seq![l1, l2].drop_first() =~= seq![l2]);
    assert(seq![l2].drop_first() =~= Seq::<Seq<u8>>::empty());
    assert(pfold(st0, ls) == pfold(st1, seq![l1, l2]));
    assert(pfold(st1, seq![l1, l2]) == pfold(st2, seq![l2]));
    assert(pfold(st2, seq![l2]) == pfold(st3, Seq::<Seq<u8>>::empty()));
    assert(pfold(st3, Seq::<Seq<u8>>::empty()) == st3);
}

/// All sections, folded: with clean entries, fresh mutually distinct names,
/// they append exactly the serialized profiles and never touch the paths.
proof fn lemma_pfold_profiles(st: ParseState, ps: Seq<(Seq<u8>, ProfileV)>)
    requires
        forall|i: int| 0 <= i < ps.len() ==> profile_clean(#[trigger] ps[i]),
        forall|i: int, j: int| 0 <= i < j < ps.len() ==> ps[i].0 != ps[j].0,
        forall|i: int, k: int|
            0 <= i < ps.len() && 0 <= k < st.profiles.len() ==> st.profiles[k].0 != ps[i].0,
    ensures
        pfold(st, profiles_lines(ps)).profiles == st.profiles + ps,
        pfold(st, profiles_lines(ps)).ssh == st.ssh,
        pfold(st, profiles_lines(ps)).ghp == st.ghp,
    decreases ps.len(),
{
    if ps.len() == 0 {
        assert(profiles_lines(ps) == Seq::<Seq<u8>>::empty());
        assert(pfold(st, Seq::<Seq<u8>>::empty()) == st);
        assert(st.profiles + ps =~= st.profiles);
    } else {
        lemma_pfold_concat(st, profile_lines(ps[0].0, ps[0].1), profiles_lines(ps.drop_first()));
        assert(profile_clean(ps[0]));
        lemma_pfold_profile_group(st, ps[0].0, ps[0].1);
        let st1 = pfold(st, profile_lines(ps[0].0, ps[0].1));
        assert(st1.profiles == st.profiles.push((ps[0].0, ps[0].1)));
        assert((ps[0].0, ps[0].1) == ps[0]);
        assert(st1.profiles =~= st.profiles.push(ps[0]));
        assert(forall|i: int|
            0 <= i < ps.drop_first().len() ==> ps.drop_first()[i] == ps[i + 1]);
        assert forall|i: int, k: int|
            0 <= i < ps.drop_first().len() && 0 <= k < st1.profiles.len() implies st1.profiles[k].0
            != ps.drop_first()[i].0 by {
            if k < st.profiles.len() {
                assert(st1.profiles[k] == st.profiles[k]);
            } else {
                assert(st1.profiles[k] == ps[0]);
            }
        }
        lemma_pfold_profiles(st1, ps.drop_first());
        assert(pfold(st, profiles_lines(ps)).profiles =~= st.profiles + ps);
    }
}

/// Every line the serializer writes is free of separators.
proof fn lemma_profiles_lines_line_free(ps: Seq<(Seq<u8>, ProfileV)>)
    requires
        forall|i: int| 0 <= i < ps.len() ==> profile_clean(#[trigger] ps[i]),
    ensures
        forall|i: int|
            0 <= i < profiles_lines(ps).len() ==> line_free(#[trigger] profiles_lines(ps)[i]),
    decreases ps.len(),
{
    if ps.len() != 0 {
        let g = profile_lines(ps[0].0, ps[0].1);
        assert(profile_clean(ps[0]));
        assert(forall|i: int| 0 <= i < g.len() ==> line_free(#[trigger] g[i]));
        assert(forall|i: int|
            0 <= i < ps.drop_first().len() ==> profile_clean(#[trigger] ps.drop_first()[i]));
        lemma_profiles_lines_line_free(ps.drop_first());
        assert(profiles_lines(ps) == g + profiles_lines(ps.drop_first()));
        assert forall|i: int|
            0 <= i < profiles_lines(ps).len() implies line_free(
            #[trigger] profiles_lines(ps)[i],
        ) by {
            if i < g.len() {
                assert(profiles_lines(ps)[i] == g[i]);
            } else {
                assert(profiles_lines(ps)[i] == profiles_lines(ps.drop_first())[i - g.len()]);
            }
        }
    }
}

/// Parsing a serialized store restores it exactly, whatever fallback paths
/// are supplied: serialization loses nothing that fits the file format.
pub proof fn lemma_parse_serialize_roundtrip(c: ConfigV, fs: Seq<u8>, fg: Seq<u8>)
    requires
        config_wf(c),
        config_serializable(c),
    ensures
        parse_spec(serialize_spec(c), fs, fg) == c,
{
    let hl = header_lines(c);
    let pl = profiles_lines(c.profiles);
    let cl = config_lines(c);
    lemma_profiles_lines_line_free(c.profiles);
    assert forall|i: int| 0 <= i < cl.len() implies line_free(#[trigger] cl[i]) by {
        if i >= hl.len() {
            assert(cl[i] == pl[i - hl.len()]);
        } else {
            assert(cl[i] == hl[i]);
        }
    }
    crate::text::lemma_lines_of_unlines(cl);
    assert(lines_of(serialize_spec(c)) == cl);
    lemma_pfold_concat(init_state(), hl, pl);
    lemma_pfold_header_lines(c);
    let sth = pfold(init_state(), hl);
    assert(sth.profiles == Seq::<(Seq<u8>, ProfileV)>::empty());
    lemma_pfold_profiles(sth, c.profiles);
    let stf = pfold(init_state(), cl);
    assert(stf.profiles =~= c.profiles);
    assert(stf.ssh == Some(c.ssh_config_path) && stf.ghp == Some(c.ghp_config_path));
    assert(parse_spec(serialize_spec(c), fs, fg) == c);
}

/// Saving, loading and saving again writes the same bytes: serialization is
/// a stable fixed point of the round trip.
pub proof fn lemma_save_load_save(c: ConfigV, fs: Seq<u8>, fg: Seq<u8>)
    requires
        config_wf(c),
        config_serializable(c),
    ensures
        serialize_spec(parse_spec(serialize_spec(c), fs, fg)) == serialize_spec(c),
{
    lemma_parse_serialize_roundtrip(c, fs, fg);
}


/// A line of two spaces of indent followed by `body` opens no stanza: its
/// trimmed content starts with `body`, which does not start with `Host `.
proof fn lemma_indented_line_no_stanza(l: Seq<u8>, body: Seq<u8>)
    requires
        l == seq![32u8, 32u8] + body,
        body.len() > 0,
        !is_ws(body[0]),
        body[0] == 72u8 ==> body.len() >= 5 && body[4] != 32u8,
    ensures
        !crate::editor::starts_new_stanza(l),
{
    assert(l[0] == 32u8 && is_ws(32u8));
    assert(l.drop_first() =~= seq![32u8] + body);
    assert((seq![32u8] + body).drop_first() =~= body);
    assert(trim_start(l) == trim_start(seq![32u8] + body));
    assert(trim_start(seq![32u8] + body) == trim_start(body));
    assert(trim_start(body) == body);
    crate::text::lemma_trim_end_prefix(body);
    let te = trim(l);
    assert(te == crate::text::trim_end(body));
    if crate::editor::starts_new_stanza(l) {
        assert(te.take(5) == crate::editor::host_prefix());
        assert(te[0] == 72u8 && te[4] == 32u8);
        assert(te[0] == body[0] && te[4] == body[4]);
        assert(false);
    }
}

/// The block written on switch is a complete `Host github.com` stanza in
/// the editor's sense, so editing with it is idempotent.
pub proof fn lemma_switch_block_wf(p: ProfileV)
    requires
        line_free(p.username),
        line_free(p.ssh_key),
    ensures
        crate::editor::block_wf(crate::editor::github_host(), switch_block_spec(p)),
{
    let u = p.username;
    let k = p.ssh_key;
    let gh = crate::editor::github_host();
    let l0 = crate::editor::host_prefix() + gh;
    let body1 = seq![72u8, 111u8, 115u8, 116u8, 78u8, 97u8, 109u8, 101u8, 32u8] + gh;
    let l1 = seq![32u8, 32u8] + body1;
    let body2 = seq![85u8, 115u8, 101u8, 114u8, 32u8] + u;
    let l2 = seq![32u8, 32u8] + body2;
    let body3 = seq![
        73u8,
        100u8,
        101u8,
        110u8,
        116u8,
        105u8,
        116u8,
        121u8,
        70u8,
        105u8,
        108u8,
        101u8,
        32u8,
    ] + k;
    let l3 = seq![32u8, 32u8] + body3;
    let ls = seq![l0, l1, l2, l3];
    let b = switch_block_spec(p);

    // The block is exactly these four lines, joined.
    crate::text::lemma_unlines_single(l3);
    assert(seq![l2, l3].drop_first() =~= seq![l3]);
    assert(unlines(seq![l2, l3]) =~= l2 + seq![nl()] + unlines(seq![l3]));
    assert(seq![l1, l2, l3].drop_first() =~= seq![l2, l3]);
    assert(unlines(seq![l1, l2, l3]) =~= l1 + seq![nl()] + unlines(seq![l2, l3]));
    assert(ls.drop_first() =~= seq![l1, l2, l3]);
    assert(unlines(ls) =~= l0 + seq![nl()] + unlines(seq![l1, l2, l3]));
    assert(b =~= unlines(ls));

    crate::text::lemma_unlines_last(ls);
    assert(b.last() == nl());
    let nb = crate::editor::norm_block(b);
    assert(nb == b);

    assert(line_free(l0));
    assert(line_free(l1));
    assert forall|i: int| 0 <= i < l2.len() implies l2[i] != nl() by {
        if i >= 7 {
            assert(l2[i] == u[i - 7]);
        }
    }
    assert forall|i: int| 0 <= i < l3.len() implies l3[i] != nl() by {
        if i >= 15 {
            assert(l3[i] == k[i - 15]);
        }
    }
    crate::text::lemma_lines_of_unlines(ls);
    assert(lines_of(nb) == ls);

    // The first line opens the stanza; the indented ones open none.
    assert(l0[0] == 72u8 && l0.last() == 109u8);
    lemma_trim_stable(l0);
    assert(crate::editor::is_host_header(l0, gh));
    lemma_indented_line_no_stanza(l1, body1);
    lemma_indented_line_no_stanza(l2, body2);
    lemma_indented_line_no_stanza(l3, body3);
    assert forall|i: int| 1 <= i < lines_of(nb).len() implies !crate::editor::starts_new_stanza(
        #[trigger] lines_of(nb)[i],
    ) by {
        assert(lines_of(nb)[i] == ls[i]);
    }
}

/// Switching twice to the same profile is a fixed point: the second edit
/// finds exactly the stanza the first one wrote and rewrites it unchanged.
pub proof fn lemma_switch_idempotent(t: Seq<u8>, p: ProfileV)
    requires
        line_free(p.username),
        line_free(p.ssh_key),
    ensures
        ({
            let h = crate::editor::github_host();
            let b = switch_block_spec(p);
            crate::editor::edit_spec(crate::editor::edit_spec(t, h, b), h, b)
                == crate::editor::edit_spec(t, h, b)
        }),
{
    lemma_switch_block_wf(p);
    crate::editor::lemma_edit_idempotent(t, crate::editor::github_host(), switch_block_spec(p));
}


} // verus!
