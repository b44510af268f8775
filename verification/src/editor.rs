//! The SSH config block editor.
//!
//! It locates the stanza of a given `Host` name inside arbitrary SSH client
//! config text and replaces it with a new block, or appends the block when no
//! stanza matches. A stanza starts at the first line whose trimmed content
//! equals `Host <name>` (ASCII case-insensitively) and ends just before the
//! next line whose trimmed content starts with `Host `, or at end of file.
//! Every line outside the replaced range is preserved byte for byte.

use vstd::prelude::*;

use crate::error::GhpError;
use crate::text::lemma_lines_line_free;
use crate::text::lemma_lines_of_concat;
use crate::text::lemma_lines_of_unlines;
use crate::text::lemma_norm_text_shape;
use crate::text::lemma_unlines_last;
use crate::text::lemma_unlines_push;
use crate::text::lines_of;
use crate::text::lower;
use crate::text::lower_seq;
use crate::text::nl;
use crate::text::norm_text;
use crate::text::push_bytes;
use crate::text::split_lines;
use crate::text::trim;
use crate::text::trim_bytes;
use crate::text::unlines;

verus! {

/// The directive that opens a stanza: `Host` and one space.
pub open spec fn host_prefix() -> Seq<u8> {
    seq![72u8, 111u8, 115u8, 116u8, 32u8]
}

/// The host name whose stanza the profile switcher rewrites.
pub open spec fn github_host() -> Seq<u8> {
    seq![103u8, 105u8, 116u8, 104u8, 117u8, 98u8, 46u8, 99u8, 111u8, 109u8]
}

/// The line opens the stanza of `host`: its trimmed content equals
/// `Host <host>` up to ASCII case.
pub open spec fn is_host_header(line: Seq<u8>, host: Seq<u8>) -> bool {
    lower_seq(trim(line)) == lower_seq(host_prefix() + host)
}

/// The line opens some stanza: its trimmed content starts with `Host `.
pub open spec fn starts_new_stanza(line: Seq<u8>) -> bool {
    trim(line).len() >= 5 && trim(line).take(5) == host_prefix()
}

/// Index of the first line satisfying `p`, or `ls.len()` if none does.
pub open spec fn find_first(ls: Seq<Seq<u8>>, p: spec_fn(Seq<u8>) -> bool) -> nat
    decreases ls.len(),
{
    if ls.len() == 0 {
        0
    } else if p(ls[0]) {
        0
    } else {
        1 + find_first(ls.drop_first(), p)
    }
}

/// `find_first` is in bounds, lands on a hit, and skips no hit.
pub proof fn lemma_find_first_props(ls: Seq<Seq<u8>>, p: spec_fn(Seq<u8>) -> bool)
    ensures
        find_first(ls, p) <= ls.len(),
        find_first(ls, p) < ls.len() ==> p(ls[find_first(ls, p) as int]),
        forall|m: int| 0 <= m < find_first(ls, p) ==> !p(ls[m]),
    decreases ls.len(),
{
    if ls.len() != 0 && !p(ls[0]) {
        lemma_find_first_props(ls.drop_first(), p);
        assert forall|m: int| 0 <= m < find_first(ls, p) implies !p(ls[m]) by {
            if m > 0 {
                assert(ls.drop_first()[m - 1] == ls[m]);
            }
        }
    }
}

/// A position before which nothing hits, and which hits or is the length,
/// is exactly `find_first`.
pub proof fn lemma_find_first_at(ls: Seq<Seq<u8>>, p: spec_fn(Seq<u8>) -> bool, k: int)
    requires
        0 <= k <= ls.len(),
        k < ls.len() ==> p(ls[k]),
        k == ls.len() ==> forall|m: int| 0 <= m < ls.len() ==> !p(ls[m]),
        forall|m: int| 0 <= m < k ==> !p(ls[m]),
    ensures
        find_first(ls, p) == k,
    decreases ls.len(),
{
    if ls.len() == 0 {
    } else if p(ls[0]) {
    } else {
        assert(forall|m: int| 0 <= m < k - 1 ==> ls.drop_first()[m] == ls[m + 1] && !p(ls[m + 1]));
        if k == ls.len() {
            assert(forall|m: int|
                0 <= m < ls.len() - 1 ==> ls.drop_first()[m] == ls[m + 1] && !p(ls[m + 1]));
            lemma_find_first_at(ls.drop_first(), p, k - 1);
        } else {
            assert(ls.drop_first()[k - 1] == ls[k]);
            lemma_find_first_at(ls.drop_first(), p, k - 1);
        }
    }
}

/// The predicate that `find_header` scans for.
pub open spec fn header_pred(host: Seq<u8>) -> spec_fn(Seq<u8>) -> bool {
    |l: Seq<u8>| is_host_header(l, host)
}

/// The predicate that the end-of-stanza scan uses.
pub open spec fn boundary_pred() -> spec_fn(Seq<u8>) -> bool {
    |l: Seq<u8>| starts_new_stanza(l)
}

/// Index of the first line that opens the stanza of `host`.
pub open spec fn find_header(ls: Seq<Seq<u8>>, host: Seq<u8>) -> nat {
    find_first(ls, header_pred(host))
}

/// Exclusive end of the stanza that starts at line `s`: the next line that
/// opens any stanza, or the end of the line list.
pub open spec fn stanza_end(ls: Seq<Seq<u8>>, s: int) -> int {
    s + 1 + find_first(ls.skip(s + 1), boundary_pred())
}

/// `block` terminated by exactly the separator it ends with, or one more.
pub open spec fn norm_block(block: Seq<u8>) -> Seq<u8> {
    if block.len() > 0 && block.last() == nl() {
        block
    } else {
        block.push(nl())
    }
}

/// The result of the edit: the lines before the matched stanza, the new
/// block, a blank separator line and the lines from the stanza end on; or,
/// with no match, the newline-normalized original followed by the block.
pub open spec fn edit_spec(t: Seq<u8>, host: Seq<u8>, block: Seq<u8>) -> Seq<u8> {
    let ls = lines_of(t);
    let s = find_header(ls, host) as int;
    if s >= ls.len() {
        norm_text(t) + norm_block(block)
    } else {
        let e = stanza_end(ls, s);
        unlines(ls.take(s)) + norm_block(block) + (if e < ls.len() {
            seq![nl()] + unlines(ls.skip(e))
        } else {
            Seq::<u8>::empty()
        })
    }
}

/// With no stanza of `host` anywhere in `t`, the edit appends: the original
/// text is preserved verbatim as a prefix — with one newline added when it
/// lacked a final one — and the newline-terminated block follows.
pub proof fn lemma_edit_appends_when_absent(t: Seq<u8>, host: Seq<u8>, block: Seq<u8>)
    requires
        forall|i: int|
            0 <= i < lines_of(t).len() ==> !is_host_header(#[trigger] lines_of(t)[i], host),
    ensures
        edit_spec(t, host, block) == norm_text(t) + norm_block(block),
        t.len() == 0 || t.last() == nl() ==> edit_spec(t, host, block) == t + norm_block(block),
        t.len() != 0 && t.last() != nl() ==> edit_spec(t, host, block) == t + seq![nl()]
            + norm_block(block),
{
    let ls = lines_of(t);
    assert(forall|m: int| 0 <= m < ls.len() ==> !(header_pred(host)(ls[m])));
    lemma_find_first_at(ls, header_pred(host), ls.len() as int);
    lemma_norm_text_shape(t);
    if t.len() != 0 && t.last() != nl() {
        assert((t + seq![nl()]) + norm_block(block) =~= t + seq![nl()] + norm_block(block));
    }
}

/// With a stanza of `host` present, the edit touches exactly that stanza's
/// line range: every line before its header and every line from its end
/// boundary on is kept, in order and byte for byte, and the block stands in
/// between, newline-terminated, with a separating blank line when lines
/// follow.
pub proof fn lemma_edit_replaces_in_place(t: Seq<u8>, host: Seq<u8>, block: Seq<u8>)
    requires
        find_header(lines_of(t), host) < lines_of(t).len(),
    ensures
        ({
            let ls = lines_of(t);
            let s = find_header(ls, host) as int;
            let e = stanza_end(ls, s);
            &&& s < e <= ls.len()
            &&& is_host_header(ls[s], host)
            &&& forall|m: int| 0 <= m < s ==> !is_host_header(ls[m], host)
            &&& forall|m: int| s < m < e ==> !starts_new_stanza(ls[m])
            &&& e < ls.len() ==> starts_new_stanza(ls[e])
            &&& edit_spec(t, host, block) == unlines(ls.take(s)) + norm_block(block) + (if e
                < ls.len() {
                seq![nl()] + unlines(ls.skip(e))
            } else {
                Seq::<u8>::empty()
            })
        }),
{
    let ls = lines_of(t);
    let s = find_header(ls, host) as int;
    lemma_find_first_props(ls, header_pred(host));
    let tail = ls.skip(s + 1);
    lemma_find_first_props(tail, boundary_pred());
    let fb = find_first(tail, boundary_pred()) as int;
    assert(forall|m: int| 0 <= m < tail.len() ==> tail[m] == ls[m + s + 1]);
    assert forall|m: int| s < m < stanza_end(ls, s) implies !starts_new_stanza(ls[m]) by {
        assert(tail[m - s - 1] == ls[m]);
    }
}

/// With the matching `Host` header as the very last line, the edit replaces
/// through the end of file and appends nothing after the block.
pub proof fn lemma_edit_header_last_line(t: Seq<u8>, host: Seq<u8>, block: Seq<u8>)
    requires
        lines_of(t).len() > 0,
        find_header(lines_of(t), host) == lines_of(t).len() - 1,
    ensures
        edit_spec(t, host, block) == unlines(lines_of(t).take(lines_of(t).len() - 1))
            + norm_block(block),
{
    let ls = lines_of(t);
    let s = (ls.len() - 1) as int;
    assert(ls.skip(s + 1) =~= Seq::<Seq<u8>>::empty());
    assert(find_first(ls.skip(s + 1), boundary_pred()) == 0);
    assert(unlines(ls.take(s)) + norm_block(block) + Seq::<u8>::empty() =~= unlines(ls.take(s))
        + norm_block(block));
}

/// Which stanza a line opens does not depend on the ASCII case of the host
/// name sought: host names equal up to case match the same lines.
pub proof fn lemma_header_match_case_insensitive(line: Seq<u8>, h1: Seq<u8>, h2: Seq<u8>)
    requires
        lower_seq(h1) == lower_seq(h2),
    ensures
        is_host_header(line, h1) == is_host_header(line, h2),
{
    crate::text::lemma_lower_seq_concat(host_prefix(), h1);
    crate::text::lemma_lower_seq_concat(host_prefix(), h2);
}

/// The block is a complete stanza of `host` once newline-terminated: its
/// first line opens that stanza and no later line opens any stanza.
pub open spec fn block_wf(host: Seq<u8>, block: Seq<u8>) -> bool {
    let bls = lines_of(norm_block(block));
    &&& bls.len() > 0
    &&& is_host_header(bls[0], host)
    &&& forall|i: int| 1 <= i < bls.len() ==> !starts_new_stanza(#[trigger] bls[i])
}

/// Idempotence: editing a second time with the same host and block changes
/// nothing, because the second edit finds exactly the stanza the first one
/// wrote and replaces it with itself.
pub proof fn lemma_edit_idempotent(t: Seq<u8>, host: Seq<u8>, block: Seq<u8>)
    requires
        block_wf(host, block),
    ensures
        edit_spec(edit_spec(t, host, block), host, block) == edit_spec(t, host, block),
{
    let ls = lines_of(t);
    let s = find_header(ls, host) as int;
    let nb = norm_block(block);
    let bls = lines_of(nb);
    assert(nb.len() > 0 && nb.last() == nl());
    lemma_norm_text_shape(nb);
    assert(unlines(bls) == nb);
    lemma_lines_line_free(nb);
    lemma_lines_line_free(t);
    lemma_find_first_props(ls, header_pred(host));
    lemma_unlines_last(ls);
    if s >= ls.len() {
        // The first edit appended the block at the end.
        let out1 = norm_text(t) + nb;
        assert(edit_spec(t, host, block) == out1);
        lemma_lines_of_concat(unlines(ls), nb);
        lemma_lines_of_unlines(ls);
        let l1 = lines_of(out1);
        assert(l1 =~= ls + bls);
        assert(forall|m: int| 0 <= m < ls.len() ==> l1[m] == ls[m]);
        assert(l1[ls.len() as int] == bls[0]);
        lemma_find_first_at(l1, header_pred(host), ls.len() as int);
        let s2 = find_header(l1, host) as int;
        assert(s2 == ls.len());
        let tail = l1.skip(s2 + 1);
        assert(tail =~= bls.skip(1));
        assert(forall|m: int| 0 <= m < tail.len() ==> tail[m] == bls[m + 1]);
        lemma_find_first_at(tail, boundary_pred(), tail.len() as int);
        assert(stanza_end(l1, s2) == l1.len());
        assert(l1.take(s2) =~= ls);
        assert(edit_spec(out1, host, block) =~= unlines(ls) + nb);
        assert(edit_spec(out1, host, block) == out1);
    } else {
        // The first edit replaced the stanza at line `s`.
        lemma_edit_replaces_in_place(t, host, block);
        let e = stanza_end(ls, s);
        let p = ls.take(s);
        let su = ls.skip(e);
        assert(forall|m: int| 0 <= m < p.len() ==> p[m] == ls[m]);
        lemma_lines_of_unlines(p);
        lemma_unlines_last(p);
        if e < ls.len() {
            let out1 = unlines(p) + nb + (seq![nl()] + unlines(su));
            assert(edit_spec(t, host, block) == unlines(p) + nb + (seq![nl()] + unlines(su)))
                by {
                assert(unlines(p) + nb + (seq![nl()] + unlines(su)) =~= unlines(p) + nb + (
                seq![nl()] + unlines(su)));
                assert(edit_spec(t, host, block) =~= out1);
            }
            lemma_lines_of_concat(unlines(p), nb + (seq![nl()] + unlines(su)));
            lemma_lines_of_concat(nb, seq![nl()] + unlines(su));
            lemma_lines_of_concat(seq![nl()], unlines(su));
            crate::text::lemma_lines_of_single(Seq::<u8>::empty());
            assert(Seq::<u8>::empty() + seq![nl()] =~= seq![nl()]);
            assert(lines_of(seq![nl()]) == seq![Seq::<u8>::empty()]);
            assert(forall|m: int| 0 <= m < su.len() ==> su[m] == ls[e + m]);
            lemma_lines_of_unlines(su);
            let l1 = lines_of(out1);
            assert(out1 =~= unlines(p) + (nb + (seq![nl()] + unlines(su))));
            assert(l1 == lines_of(unlines(p)) + lines_of(nb + (seq![nl()] + unlines(su))));
            assert(lines_of(nb + (seq![nl()] + unlines(su))) == bls + lines_of(
                seq![nl()] + unlines(su),
            ));
            assert(lines_of(seq![nl()] + unlines(su)) == seq![Seq::<u8>::empty()] + su);
            assert(l1 =~= p + bls + seq![Seq::<u8>::empty()] + su);
            assert(forall|m: int| 0 <= m < s ==> l1[m] == ls[m]);
            assert(l1[s] == bls[0]);
            lemma_find_first_at(l1, header_pred(host), s);
            let tail = l1.skip(s + 1);
            assert(tail =~= bls.skip(1) + seq![Seq::<u8>::empty()] + su);
            let bn = (bls.len() - 1) as int;
            assert(forall|m: int| 0 <= m < bn ==> tail[m] == bls[m + 1]);
            assert(tail[bn] == Seq::<u8>::empty());
            assert(!starts_new_stanza(Seq::<u8>::empty()));
            assert(tail[bn + 1] == su[0] && su[0] == ls[e]);
            assert(starts_new_stanza(ls[e]));
            lemma_find_first_at(tail, boundary_pred(), bn + 1);
            let e2 = stanza_end(l1, s);
            assert(e2 == s + 1 + bn + 1);
            assert(e2 < l1.len());
            assert(l1.take(s) =~= p);
            assert(l1.skip(e2) =~= su);
            assert(edit_spec(out1, host, block) =~= out1);
            assert(edit_spec(out1, host, block) == edit_spec(t, host, block));
        } else {
            let out1 = unlines(p) + nb;
            assert(edit_spec(t, host, block) =~= out1);
            lemma_lines_of_concat(unlines(p), nb);
            let l1 = lines_of(out1);
            assert(l1 =~= p + bls);
            assert(forall|m: int| 0 <= m < s ==> l1[m] == ls[m]);
            assert(l1[s] == bls[0]);
            lemma_find_first_at(l1, header_pred(host), s);
            let tail = l1.skip(s + 1);
            assert(tail =~= bls.skip(1));
            assert(forall|m: int| 0 <= m < tail.len() ==> tail[m] == bls[m + 1]);
            lemma_find_first_at(tail, boundary_pred(), tail.len() as int);
            assert(stanza_end(l1, s) == l1.len());
            assert(l1.take(s) =~= p);
            assert(edit_spec(out1, host, block) =~= out1);
            assert(edit_spec(out1, host, block) == edit_spec(t, host, block));
        }
    }
}

/// ASCII lower case of one byte.
fn lower_byte(b: u8) -> (r: u8)
    ensures
        r == lower(b),
{
    if 65u8 <= b && b <= 90u8 {
        b + 32
    } else {
        b
    }
}

/// ASCII case-insensitive equality of two byte strings.
fn eq_ignore_ascii_case(a: &[u8], b: &[u8]) -> (r: bool)
    ensures
        r == (lower_seq(a@) == lower_seq(b@)),
{
    if a.len() != b.len() {
        assert(lower_seq(a@).len() != lower_seq(b@).len());
        return false;
    }
    let mut i: usize = 0;
    while i < a.len()
        invariant
            i <= a@.len(),
            a@.len() == b@.len(),
            forall|j: int| 0 <= j < i ==> lower(a@[j]) == lower(b@[j]),
        decreases a@.len() - i,
    {
        let x = lower_byte(a[i]);
        let y = lower_byte(b[i]);
        if x != y {
            assert(lower_seq(a@)[i as int] != lower_seq(b@)[i as int]);
            return false;
        }
        i = i + 1;
    }
    assert(lower_seq(a@) =~= lower_seq(b@));
    true
}

/// Does this line open the stanza of `host`?
fn is_header_line(line: &[u8], host: &[u8]) -> (r: bool)
    ensures
        r == is_host_header(line@, host@),
{
    let t = trim_bytes(line);
    let mut hh: Vec<u8> = Vec::new();
    hh.push(72u8);
    hh.push(111u8);
    hh.push(115u8);
    hh.push(116u8);
    hh.push(32u8);
    proof {
        assert(hh@ =~= host_prefix());
    }
    push_bytes(&mut hh, host);
    eq_ignore_ascii_case(t.as_slice(), hh.as_slice())
}

/// Does this line open some stanza?
fn is_boundary_line(line: &[u8]) -> (r: bool)
    ensures
        r == starts_new_stanza(line@),
{
    let t = trim_bytes(line);
    if t.len() < 5 {
        return false;
    }
    let r = t[0] == 72u8 && t[1] == 111u8 && t[2] == 115u8 && t[3] == 116u8 && t[4] == 32u8;
    proof {
        if r {
            assert(trim(line@).take(5) =~= host_prefix());
        } else {
            assert(trim(line@).take(5) != host_prefix());
        }
    }
    r
}

/// Rewrites `content` so that the stanza of `host` is exactly `new_block`:
/// replaced in place when present, appended when absent.
pub fn replace_or_append_host_block(content: &[u8], host: &[u8], new_block: &[u8]) -> (r: Vec<u8>)
    ensures
        r@ == edit_spec(content@, host@, new_block@),
{
    let lines = split_lines(content);
    let ghost ls = lines@.map_values(|l: Vec<u8>| l@);
    let n = lines.len();
    let mut s: usize = 0;
    while s < n && !is_header_line(lines[s].as_slice(), host)
        invariant
            s <= n,
            n == ls.len(),
            ls == lines@.map_values(|l: Vec<u8>| l@),
            forall|m: int| 0 <= m < s ==> !is_host_header(ls[m], host@),
        decreases n - s,
    {
        s = s + 1;
    }
    proof {
        lemma_find_first_at(ls, header_pred(host@), s as int);
    }
    if s == n {
        // No stanza of this host: normalize the trailing newline, append.
        let mut out: Vec<u8> = Vec::new();
        push_bytes(&mut out, content);
        if content.len() > 0 && content[content.len() - 1] != 10u8 {
            out.push(10u8);
        }
        proof {
            lemma_norm_text_shape(content@);
            assert(out@ =~= norm_text(content@));
        }
        push_bytes(&mut out, new_block);
        if !(new_block.len() > 0 && new_block[new_block.len() - 1] == 10u8) {
            out.push(10u8);
        }
        proof {
            assert(out@ =~= norm_text(content@) + norm_block(new_block@));
        }
        out
    } else {
        // Lines strictly before the stanza.
        let mut out: Vec<u8> = Vec::new();
        proof {
            assert(ls.take(0) =~= Seq::<Seq<u8>>::empty());
        }
        let mut i: usize = 0;
        while i < s
            invariant
                i <= s <= n,
                n == ls.len(),
                ls == lines@.map_values(|l: Vec<u8>| l@),
                out@ == unlines(ls.take(i as int)),
            decreases s - i,
        {
            push_bytes(&mut out, lines[i].as_slice());
            out.push(10u8);
            i = i + 1;
            proof {
                assert(ls.take(i as int) =~= ls.take(i - 1).push(ls[i - 1]));
                lemma_unlines_push(ls.take(i - 1), ls[i - 1]);
                assert(out@ =~= unlines(ls.take(i - 1)) + ls[i - 1] + seq![nl()]);
            }
        }
        // The new block, newline-terminated.
        push_bytes(&mut out, new_block);
        if !(new_block.len() > 0 && new_block[new_block.len() - 1] == 10u8) {
            out.push(10u8);
        }
        let ghost base = unlines(ls.take(s as int)) + norm_block(new_block@);
        proof {
            assert(out@ =~= base);
        }
        // End of the stanza: the next line that opens one, or the end.
        let mut e: usize = s + 1;
        while e < n && !is_boundary_line(lines[e].as_slice())
            invariant
                s + 1 <= e <= n,
                n == ls.len(),
                ls == lines@.map_values(|l: Vec<u8>| l@),
                forall|m: int| s + 1 <= m < e ==> !starts_new_stanza(ls[m]),
            decreases n - e,
        {
            e = e + 1;
        }
        proof {
            let tail = ls.skip(s + 1);
            assert(forall|m: int| 0 <= m < tail.len() ==> tail[m] == ls[m + s + 1]);
            lemma_find_first_at(tail, boundary_pred(), e - s - 1);
            assert(stanza_end(ls, s as int) == e);
        }
        // Lines from the stanza end on, after one separating blank line.
        if e < n {
            out.push(10u8);
            proof {
                assert(ls.subrange(e as int, e as int) =~= Seq::<Seq<u8>>::empty());
                assert(out@ =~= base + seq![nl()] + unlines(ls.subrange(e as int, e as int)));
            }
            let mut k: usize = e;
            while k < n
                invariant
                    e <= k <= n,
                    n == ls.len(),
                    ls == lines@.map_values(|l: Vec<u8>| l@),
                    out@ == base + seq![nl()] + unlines(ls.subrange(e as int, k as int)),
                decreases n - k,
            {
                push_bytes(&mut out, lines[k].as_slice());
                out.push(10u8);
                k = k + 1;
                proof {
                    assert(ls.subrange(e as int, k as int) =~= ls.subrange(e as int, k - 1).push(
                        ls[k - 1],
                    ));
                    lemma_unlines_push(ls.subrange(e as int, k - 1), ls[k - 1]);
                    assert(out@ =~= base + seq![nl()] + unlines(ls.subrange(e as int, k as int)));
                }
            }
            proof {
                assert(ls.subrange(e as int, n as int) =~= ls.skip(e as int));
                assert(out@ =~= edit_spec(content@, host@, new_block@));
            }
        } else {
            proof {
                assert(out@ =~= edit_spec(content@, host@, new_block@));
            }
        }
        out
    }
}

/// Rewrites the `Host github.com` stanza of `content` to `new_host_config`,
/// appending it when no such stanza exists. Never fails; the `Result` mirrors
/// the store API.
pub fn update_github_host_in_ssh_config(content: &[u8], new_host_config: &[u8]) -> (r: Result<
    Vec<u8>,
    GhpError,
>)
    ensures
        r matches Ok(v) && v@ == edit_spec(content@, github_host(), new_host_config@),
{
    let mut host: Vec<u8> = Vec::new();
    host.push(103u8);
    host.push(105u8);
    host.push(116u8);
    host.push(104u8);
    host.push(117u8);
    host.push(98u8);
    host.push(46u8);
    host.push(99u8);
    host.push(111u8);
    host.push(109u8);
    proof {
        assert(host@ =~= github_host());
    }
    Ok(replace_or_append_host_block(content, host.as_slice(), new_host_config))
}

} // verus!
