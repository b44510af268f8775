//! Byte-level text model: splitting into lines, joining lines back,
//! trimming ASCII whitespace and ASCII case folding.
//!
//! A text is a `Seq<u8>`. Its lines are the maximal runs of bytes between
//! `\n` separators; a trailing `\n` closes the last line without opening a
//! new one, so `"a\n"` and `"a"` both have the single line `"a"`.

use vstd::prelude::*;

verus! {

/// The line separator.
pub open spec fn nl() -> u8 {
    10u8
}

/// ASCII whitespace as trimmed from line ends: space, tab, CR, VT, FF.
pub open spec fn is_ws(b: u8) -> bool {
    b == 32u8 || b == 9u8 || b == 13u8 || b == 11u8 || b == 12u8
}

/// Index of the first occurrence of `b` in `s`, or `s.len()` if absent.
pub open spec fn find_byte(s: Seq<u8>, b: u8) -> nat
    decreases s.len(),
{
    if s.len() == 0 {
        0
    } else if s[0] == b {
        0
    } else {
        1 + find_byte(s.drop_first(), b)
    }
}

/// `find_byte` lands on `b`, inside bounds, and nothing before it is `b`.
pub proof fn lemma_find_byte_props(s: Seq<u8>, b: u8)
    ensures
        0 <= find_byte(s, b) <= s.len(),
        find_byte(s, b) < s.len() ==> s[find_byte(s, b) as int] == b,
        forall|m: int| 0 <= m < find_byte(s, b) ==> s[m] != b,
    decreases s.len(),
{
    if s.len() != 0 && s[0] != b {
        lemma_find_byte_props(s.drop_first(), b);
        assert forall|m: int| 0 <= m < find_byte(s, b) implies s[m] != b by {
            if m > 0 {
                assert(s.drop_first()[m - 1] == s[m]);
            }
        }
    }
}

/// If nothing before `k` is `b`, and `k` is the length or holds `b`,
/// then `k` is exactly `find_byte(s, b)`.
pub proof fn lemma_find_byte_at(s: Seq<u8>, b: u8, k: int)
    requires
        0 <= k <= s.len(),
        k < s.len() ==> s[k] == b,
        k == s.len() ==> forall|m: int| 0 <= m < s.len() ==> s[m] != b,
        forall|m: int| 0 <= m < k ==> s[m] != b,
    ensures
        find_byte(s, b) == k,
    decreases s.len(),
{
    if s.len() == 0 {
    } else if s[0] == b {
    } else {
        assert(forall|m: int| 0 <= m < k - 1 ==> s.drop_first()[m] == s[m + 1] && s[m + 1] != b);
        if k == s.len() {
            assert(forall|m: int| 0 <= m < s.len() - 1 ==> s.drop_first()[m] == s[m + 1] && s[m + 1]
                != b);
            lemma_find_byte_at(s.drop_first(), b, k - 1);
        } else {
            assert(s.drop_first()[k - 1] == b);
            lemma_find_byte_at(s.drop_first(), b, k - 1);
        }
    }
}

/// The lines of `t`, split at `\n`; the separators are not part of any line.
pub open spec fn lines_of(t: Seq<u8>) -> Seq<Seq<u8>>
    decreases t.len(),
{
    if t.len() == 0 {
        Seq::empty()
    } else {
        let k = find_byte(t, nl()) as int;
        if k >= t.len() {
            seq![t]
        } else {
            seq![t.take(k)] + lines_of(t.skip(k + 1))
        }
    }
}

/// True when `s` contains no line separator.
pub open spec fn line_free(s: Seq<u8>) -> bool {
    forall|i: int| 0 <= i < s.len() ==> s[i] != nl()
}

/// Joins lines back into a text, terminating every line with `\n`.
pub open spec fn unlines(ls: Seq<Seq<u8>>) -> Seq<u8>
    decreases ls.len(),
{
    if ls.len() == 0 {
        Seq::empty()
    } else {
        ls[0] + seq![nl()] + unlines(ls.drop_first())
    }
}

/// `t` with its trailing newline made explicit: the identity on empty or
/// `\n`-terminated text, and `t + "\n"` otherwise.
pub open spec fn norm_text(t: Seq<u8>) -> Seq<u8> {
    unlines(lines_of(t))
}

/// No line produced by `lines_of` contains a separator.
pub proof fn lemma_lines_line_free(t: Seq<u8>)
    ensures
        forall|i: int| 0 <= i < lines_of(t).len() ==> line_free(#[trigger] lines_of(t)[i]),
    decreases t.len(),
{
    if t.len() != 0 {
        let k = find_byte(t, nl()) as int;
        lemma_find_byte_props(t, nl());
        if k == t.len() {
            assert(line_free(t));
        } else {
            assert(line_free(t.take(k)));
            lemma_lines_line_free(t.skip(k + 1));
            assert(forall|i: int|
                1 <= i < lines_of(t).len() ==> lines_of(t)[i] == lines_of(t.skip(k + 1))[i - 1]);
        }
    }
}

/// A single `\n`-terminated separator-free line is its own line list.
pub proof fn lemma_lines_of_single(l: Seq<u8>)
    requires
        line_free(l),
    ensures
        lines_of(l + seq![nl()]) == seq![l],
{
    let t = l + seq![nl()];
    lemma_find_byte_at(t, nl(), l.len() as int);
    assert(t.take(l.len() as int) =~= l);
    assert(t.skip(l.len() as int + 1) =~= Seq::<u8>::empty());
    assert(lines_of(Seq::<u8>::empty()) == Seq::<Seq<u8>>::empty());
    assert(lines_of(t) =~= seq![l]);
}

/// Joining a single line appends exactly one separator.
pub proof fn lemma_unlines_single(l: Seq<u8>)
    ensures
        unlines(seq![l]) == l + seq![nl()],
{
    assert(seq![l].drop_first() =~= Seq::<Seq<u8>>::empty());
    assert(unlines(Seq::<Seq<u8>>::empty()) == Seq::<u8>::empty());
    assert(unlines(seq![l]) =~= l + seq![nl()]);
}

/// Splitting distributes over concatenation when the first part ends at a
/// line boundary.
pub proof fn lemma_lines_of_concat(a: Seq<u8>, b: Seq<u8>)
    requires
        a.len() == 0 || a.last() == nl(),
    ensures
        lines_of(a + b) == lines_of(a) + lines_of(b),
    decreases a.len(),
{
    if a.len() == 0 {
        assert(a + b =~= b);
        assert(lines_of(a) + lines_of(b) =~= lines_of(b));
    } else {
        let k = find_byte(a, nl()) as int;
        lemma_find_byte_props(a, nl());
        assert(a[a.len() - 1] == nl());
        assert(k < a.len());
        let t = a + b;
        assert(forall|m: int| 0 <= m < k ==> t[m] == a[m]);
        lemma_find_byte_at(t, nl(), k);
        assert(t.take(k) =~= a.take(k));
        assert(t.skip(k + 1) =~= a.skip(k + 1) + b);
        if k + 1 == a.len() {
            assert(a.skip(k + 1) =~= Seq::<u8>::empty());
        } else {
            assert(a.skip(k + 1).last() == nl());
        }
        lemma_lines_of_concat(a.skip(k + 1), b);
        assert(lines_of(t) =~= lines_of(a) + lines_of(b));
    }
}

/// Joining distributes over concatenation of line lists.
pub proof fn lemma_unlines_concat(a: Seq<Seq<u8>>, b: Seq<Seq<u8>>)
    ensures
        unlines(a + b) == unlines(a) + unlines(b),
    decreases a.len(),
{
    if a.len() == 0 {
        assert(a + b =~= b);
        assert(unlines(a) + unlines(b) =~= unlines(b));
    } else {
        assert((a + b).drop_first() =~= a.drop_first() + b);
        lemma_unlines_concat(a.drop_first(), b);
        assert(unlines(a + b) =~= unlines(a) + unlines(b));
    }
}

/// Adding one line at the end appends its bytes and a separator.
pub proof fn lemma_unlines_push(ls: Seq<Seq<u8>>, l: Seq<u8>)
    ensures
        unlines(ls.push(l)) == unlines(ls) + l + seq![nl()],
{
    assert(ls.push(l) =~= ls + seq![l]);
    lemma_unlines_concat(ls, seq![l]);
    lemma_unlines_single(l);
    assert(unlines(ls) + (l + seq![nl()]) =~= unlines(ls) + l + seq![nl()]);
}

/// A joined text is empty or ends with a separator.
pub proof fn lemma_unlines_last(ls: Seq<Seq<u8>>)
    ensures
        unlines(ls).len() == 0 || unlines(ls).last() == nl(),
    decreases ls.len(),
{
    if ls.len() != 0 {
        lemma_unlines_concat(seq![ls[0]], ls.drop_first());
        assert(seq![ls[0]] + ls.drop_first() =~= ls);
        if unlines(ls.drop_first()).len() == 0 {
            assert(unlines(ls) =~= ls[0] + seq![nl()]);
        } else {
            lemma_unlines_last(ls.drop_first());
        }
    }
}

/// Joining the lines of a text restores it, up to the trailing newline:
/// exactly when the text was empty or `\n`-terminated, with one `\n` added
/// otherwise.
pub proof fn lemma_norm_text_shape(t: Seq<u8>)
    ensures
        t.len() == 0 || t.last() == nl() ==> norm_text(t) == t,
        t.len() != 0 && t.last() != nl() ==> norm_text(t) == t + seq![nl()],
    decreases t.len(),
{
    if t.len() != 0 {
        let k = find_byte(t, nl()) as int;
        lemma_find_byte_props(t, nl());
        if k == t.len() {
            assert(t.last() != nl());
            assert(lines_of(t) =~= seq![t]);
            lemma_unlines_single(t);
        } else {
            let rest = t.skip(k + 1);
            lemma_norm_text_shape(rest);
            assert(lines_of(t) =~= seq![t.take(k)] + lines_of(rest));
            lemma_unlines_concat(seq![t.take(k)], lines_of(rest));
            lemma_unlines_single(t.take(k));
            assert(t.take(k) + seq![nl()] =~= t.take(k + 1));
            if rest.len() == 0 {
                assert(t.last() == nl());
                assert(norm_text(t) =~= t.take(k + 1));
                assert(t.take(k + 1) =~= t);
            } else if rest.last() == nl() {
                assert(t.last() == rest.last());
                assert(norm_text(t) =~= t.take(k + 1) + rest);
                assert(t.take(k + 1) + rest =~= t);
            } else {
                assert(t.last() == rest.last());
                assert(norm_text(t) =~= t.take(k + 1) + (rest + seq![nl()]));
                assert(t.take(k + 1) + (rest + seq![nl()]) =~= t + seq![nl()]);
            }
        }
    }
}

/// Splitting a joined list of separator-free lines gives the list back.
pub proof fn lemma_lines_of_unlines(ls: Seq<Seq<u8>>)
    requires
        forall|i: int| 0 <= i < ls.len() ==> line_free(#[trigger] ls[i]),
    ensures
        lines_of(unlines(ls)) == ls,
    decreases ls.len(),
{
    if ls.len() != 0 {
        let head = ls[0] + seq![nl()];
        assert(unlines(ls) =~= head + unlines(ls.drop_first()));
        lemma_lines_of_concat(head, unlines(ls.drop_first()));
        lemma_lines_of_single(ls[0]);
        lemma_lines_of_unlines(ls.drop_first());
        assert(lines_of(unlines(ls)) =~= ls);
    }
}

/// `s` with leading whitespace removed.
pub open spec fn trim_start(s: Seq<u8>) -> Seq<u8>
    decreases s.len(),
{
    if s.len() > 0 && is_ws(s[0]) {
        trim_start(s.drop_first())
    } else {
        s
    }
}

/// `s` with trailing whitespace removed.
pub open spec fn trim_end(s: Seq<u8>) -> Seq<u8>
    decreases s.len(),
{
    if s.len() > 0 && is_ws(s.last()) {
        trim_end(s.drop_last())
    } else {
        s
    }
}

/// `s` with whitespace removed from both ends.
pub open spec fn trim(s: Seq<u8>) -> Seq<u8> {
    trim_end(trim_start(s))
}

/// Trimming the end keeps an initial prefix of the text.
pub proof fn lemma_trim_end_prefix(s: Seq<u8>)
    ensures
        trim_end(s).len() <= s.len(),
        forall|i: int| 0 <= i < trim_end(s).len() ==> trim_end(s)[i] == s[i],
    decreases s.len(),
{
    if s.len() > 0 && is_ws(s.last()) {
        lemma_trim_end_prefix(s.drop_last());
        assert(forall|i: int| 0 <= i < s.len() - 1 ==> s.drop_last()[i] == s[i]);
    }
}

/// A text that neither starts nor ends with whitespace trims to itself.
pub proof fn lemma_trim_stable(s: Seq<u8>)
    requires
        s.len() == 0 || (!is_ws(s[0]) && !is_ws(s.last())),
    ensures
        trim(s) == s,
{
}

/// ASCII lower case of one byte.
pub open spec fn lower(b: u8) -> u8 {
    if 65u8 <= b <= 90u8 {
        (b + 32u8) as u8
    } else {
        b
    }
}

/// ASCII lower case of a byte sequence.
pub open spec fn lower_seq(s: Seq<u8>) -> Seq<u8> {
    s.map_values(|b: u8| lower(b))
}

/// Case folding distributes over concatenation.
pub proof fn lemma_lower_seq_concat(a: Seq<u8>, b: Seq<u8>)
    ensures
        lower_seq(a + b) == lower_seq(a) + lower_seq(b),
{
    assert(lower_seq(a + b) =~= lower_seq(a) + lower_seq(b));
}

/// Appends every byte of `s` to `out`.
pub fn push_bytes(out: &mut Vec<u8>, s: &[u8])
    ensures
        final(out)@ == old(out)@ + s@,
{
    proof {
        assert(out@ + s@.take(0) =~= out@);
    }
    let mut i: usize = 0;
    while i < s.len()
        invariant
            i <= s.len(),
            out@ == old(out)@ + s@.take(i as int),
        decreases s.len() - i,
    {
        out.push(s[i]);
        i = i + 1;
        proof {
            assert(s@.take(i as int) =~= s@.take(i - 1).push(s@[i - 1]));
            assert(old(out)@ + s@.take(i as int) =~= (old(out)@ + s@.take(i - 1)).push(
                s@[i - 1],
            ));
        }
    }
    assert(s@.take(s@.len() as int) =~= s@);
}

/// Byte-for-byte equality of two slices.
pub fn bytes_eq(a: &[u8], b: &[u8]) -> (r: bool)
    ensures
        r == (a@ == b@),
{
    if a.len() != b.len() {
        assert(a@ != b@);
        return false;
    }
    let mut i: usize = 0;
    while i < a.len()
        invariant
            i <= a.len(),
            a.len() == b.len(),
            forall|j: int| 0 <= j < i ==> a@[j] == b@[j],
        decreases a.len() - i,
    {
        if a[i] != b[i] {
            return false;
        }
        i = i + 1;
    }
    assert(a@ =~= b@);
    true
}

/// The bytes of `s` from `from` (inclusive) to `to` (exclusive), as a vector.
pub fn copy_range(s: &[u8], from: usize, to: usize) -> (r: Vec<u8>)
    requires
        from <= to <= s@.len(),
    ensures
        r@ == s@.subrange(from as int, to as int),
{
    let mut out: Vec<u8> = Vec::new();
    proof {
        assert(out@ =~= s@.subrange(from as int, from as int));
    }
    let mut i: usize = from;
    while i < to
        invariant
            from <= i <= to <= s@.len(),
            out@ == s@.subrange(from as int, i as int),
        decreases to - i,
    {
        out.push(s[i]);
        i = i + 1;
        assert(s@.subrange(from as int, i as int) =~= s@.subrange(from as int, i - 1).push(
            s@[i - 1],
        ));
    }
    out
}

/// Splits a text into its lines.
pub fn split_lines(t: &[u8]) -> (r: Vec<Vec<u8>>)
    ensures
        r@.map_values(|l: Vec<u8>| l@) == lines_of(t@),
{
    let mut out: Vec<Vec<u8>> = Vec::new();
    proof {
        assert(t@.skip(0) =~= t@);
        assert(out@.map_values(|l: Vec<u8>| l@) + lines_of(t@.skip(0)) =~= lines_of(t@));
    }
    let mut i: usize = 0;
    while i < t.len()
        invariant
            i <= t@.len(),
            lines_of(t@) == out@.map_values(|l: Vec<u8>| l@) + lines_of(t@.skip(i as int)),
        decreases t@.len() - i,
    {
        let ghost prev = out@.map_values(|l: Vec<u8>| l@);
        let ghost rest = t@.skip(i as int);
        // Find the end of the current line.
        let mut j: usize = i;
        while j < t.len() && t[j] != 10u8
            invariant
                i <= j <= t@.len(),
                forall|m: int| i <= m < j ==> t@[m] != nl(),
            decreases t@.len() - j,
        {
            j = j + 1;
        }
        proof {
            assert(forall|m: int| 0 <= m < j - i ==> rest[m] == t@[i + m] && t@[i + m] != nl());
            if j < t@.len() {
                assert(rest[j - i] == t@[j as int]);
            }
            lemma_find_byte_at(rest, nl(), j - i);
        }
        let line = copy_range(t, i, j);
        out.push(line);
        proof {
            assert(out@.map_values(|l: Vec<u8>| l@) =~= prev.push(line@));
            assert(line@ =~= rest.take(j - i));
        }
        if j == t.len() {
            proof {
                assert(line@ =~= rest);
                assert(lines_of(rest) =~= seq![rest]);
                assert(lines_of(t@.skip(j as int)) =~= Seq::<Seq<u8>>::empty());
                assert(prev + lines_of(rest) =~= prev.push(line@) + lines_of(t@.skip(j as int)));
            }
            i = j;
        } else {
            proof {
                assert(lines_of(rest) =~= seq![rest.take(j - i)] + lines_of(rest.skip(j - i + 1)));
                assert(rest.skip(j - i + 1) =~= t@.skip(j + 1));
                assert(prev + lines_of(rest) =~= prev.push(line@) + lines_of(t@.skip(j + 1)));
            }
            i = j + 1;
        }
    }
    proof {
        assert(lines_of(t@.skip(i as int)) =~= Seq::<Seq<u8>>::empty());
        assert(out@.map_values(|l: Vec<u8>| l@) =~= lines_of(t@));
    }
    out
}

/// Removes ASCII whitespace from both ends of `s`.
pub fn trim_bytes(s: &[u8]) -> (r: Vec<u8>)
    ensures
        r@ == trim(s@),
{
    proof {
        assert(s@.skip(0) =~= s@);
    }
    let mut a: usize = 0;
    while a < s.len() && (s[a] == 32u8 || s[a] == 9u8 || s[a] == 13u8 || s[a] == 11u8 || s[a]
        == 12u8)
        invariant
            a <= s@.len(),
            trim_start(s@) == trim_start(s@.skip(a as int)),
        decreases s.len() - a,
    {
        proof {
            assert(s@.skip(a as int).drop_first() =~= s@.skip(a + 1));
        }
        a = a + 1;
    }
    proof {
        assert(trim_start(s@.skip(a as int)) == s@.skip(a as int));
        assert(s@.subrange(a as int, s@.len() as int) =~= s@.skip(a as int));
    }
    let mut b: usize = s.len();
    while b > a && (s[b - 1] == 32u8 || s[b - 1] == 9u8 || s[b - 1] == 13u8 || s[b - 1] == 11u8
        || s[b - 1] == 12u8)
        invariant
            a <= b <= s@.len(),
            trim_start(s@) == s@.skip(a as int),
            trim_end(s@.skip(a as int)) == trim_end(s@.subrange(a as int, b as int)),
        decreases b,
    {
        proof {
            assert(s@.subrange(a as int, b as int).drop_last() =~= s@.subrange(a as int, b - 1));
        }
        b = b - 1;
    }
    proof {
        let piece = s@.subrange(a as int, b as int);
        assert(trim_end(piece) == piece);
    }
    copy_range(s, a, b)
}

} // verus!
