//! Character-level string utilities: splitting, trimming, case folding.
//!
//! Each executable function is specified against a recursive spec-level
//! model over `Seq<char>`, so the grammar parser built on top of these can
//! state its contract over mathematical sequences.
use vstd::prelude::*;

verus! {

/// The views of a sequence of strings, as a sequence of character sequences.
pub open spec fn strs_view(v: Seq<String>) -> Seq<Seq<char>> {
    v.map_values(|s: String| s@)
}

/// Splits `s` on `c`, keeping empty tokens; the result always has at least
/// one element (an empty input yields one empty token).
pub open spec fn split_char(s: Seq<char>, c: char) -> Seq<Seq<char>>
    decreases s.len(),
{
    if s.len() == 0 {
        seq![Seq::<char>::empty()]
    } else if s.last() == c {
        split_char(s.drop_last(), c).push(Seq::<char>::empty())
    } else {
        let r = split_char(s.drop_last(), c);
        r.drop_last().push(r.last().push(s.last()))
    }
}

pub proof fn lemma_split_len(s: Seq<char>, c: char)
    ensures
        split_char(s, c).len() >= 1,
    decreases s.len(),
{
    if s.len() > 0 {
        lemma_split_len(s.drop_last(), c);
    }
}

/// No token produced by a split contains the separator.
pub proof fn lemma_split_tokens_free(s: Seq<char>, c: char)
    ensures
        forall|i: int|
            0 <= i < split_char(s, c).len() ==> !(#[trigger] split_char(s, c)[i]).contains(c),
    decreases s.len(),
{
    if s.len() == 0 {
        assert(!split_char(s, c)[0].contains(c));
    } else {
        lemma_split_tokens_free(s.drop_last(), c);
        lemma_split_len(s.drop_last(), c);
        if s.last() == c {
            assert(!split_char(s, c)[split_char(s, c).len() - 1].contains(c));
        } else {
            let r = split_char(s.drop_last(), c);
            assert forall|i: int| 0 <= i < split_char(s, c).len() implies !(
            #[trigger] split_char(s, c)[i]).contains(c) by {
                if i < split_char(s, c).len() - 1 {
                    assert(split_char(s, c)[i] == r[i]);
                } else {
                    assert(split_char(s, c)[i] == r.last().push(s.last()));
                    assert(!r[r.len() - 1].contains(c));
                    assert forall|j: int| 0 <= j < r.last().push(s.last()).len() implies r.last().push(
                        s.last(),
                    )[j] != c by {
                        if j < r.last().len() {
                            assert(r.last()[j] != c);
                        }
                    }
                }
            }
        }
    }
}

/// Splitting a separator-free string yields that string as the only token.
pub proof fn lemma_split_whole(t: Seq<char>, c: char)
    requires
        !t.contains(c),
    ensures
        split_char(t, c) == seq![t],
    decreases t.len(),
{
    if t.len() == 0 {
        assert(t =~= Seq::<char>::empty());
        assert(split_char(t, c) =~= seq![t]);
    } else {
        assert(t.last() != c);
        assert(!t.drop_last().contains(c)) by {
            assert forall|i: int| 0 <= i < t.drop_last().len() implies t.drop_last()[i] != c by {
                assert(t.drop_last()[i] == t[i]);
            }
        }
        lemma_split_whole(t.drop_last(), c);
        assert(t.drop_last().push(t.last()) =~= t);
        assert(split_char(t, c) =~= seq![t]);
    }
}

/// Appending a separator and a separator-free token appends one token to the split.
pub proof fn lemma_split_append(s: Seq<char>, t: Seq<char>, c: char)
    requires
        !t.contains(c),
    ensures
        split_char(s + seq![c] + t, c) == split_char(s, c).push(t),
    decreases t.len(),
{
    if t.len() == 0 {
        let w = s + seq![c] + t;
        assert(w =~= s + seq![c]);
        assert(w.last() == c);
        assert(w.drop_last() =~= s);
        assert(t =~= Seq::<char>::empty());
        assert(split_char(w, c) =~= split_char(s, c).push(t));
    } else {
        let w = s + seq![c] + t;
        assert(w.last() == t.last());
        assert(t.last() != c);
        assert(!t.drop_last().contains(c)) by {
            assert forall|i: int| 0 <= i < t.drop_last().len() implies t.drop_last()[i] != c by {
                assert(t.drop_last()[i] == t[i]);
            }
        }
        lemma_split_append(s, t.drop_last(), c);
        lemma_split_len(s, c);
        assert(w.drop_last() =~= s + seq![c] + t.drop_last());
        let r = split_char(w.drop_last(), c);
        assert(r == split_char(s, c).push(t.drop_last()));
        assert(r.drop_last() =~= split_char(s, c));
        assert(r.last() == t.drop_last());
        assert(t.drop_last().push(t.last()) =~= t);
        assert(split_char(w, c) =~= split_char(s, c).push(t));
    }
}

/// Joins tokens with a separator: the inverse of `split_char`.
pub open spec fn join_char(p: Seq<Seq<char>>, c: char) -> Seq<char>
    decreases p.len(),
{
    if p.len() == 0 {
        Seq::<char>::empty()
    } else if p.len() == 1 {
        p[0]
    } else {
        join_char(p.drop_last(), c) + seq![c] + p.last()
    }
}

/// Splitting a join restores the tokens, provided none contains the separator.
pub proof fn lemma_split_join(p: Seq<Seq<char>>, c: char)
    requires
        p.len() >= 1,
        forall|i: int| 0 <= i < p.len() ==> !(#[trigger] p[i]).contains(c),
    ensures
        split_char(join_char(p, c), c) == p,
    decreases p.len(),
{
    if p.len() == 1 {
        lemma_split_whole(p[0], c);
        assert(split_char(join_char(p, c), c) =~= p);
    } else {
        assert(forall|i: int|
            0 <= i < p.drop_last().len() ==> !(#[trigger] p.drop_last()[i]).contains(c));
        lemma_split_join(p.drop_last(), c);
        lemma_split_append(join_char(p.drop_last(), c), p.last(), c);
        assert(split_char(join_char(p, c), c) =~= p);
    }
}

/// Splitting keeps only characters of the input: a character absent from
/// the input is absent from every token.
pub proof fn lemma_split_nocontain(s: Seq<char>, c: char, d: char)
    requires
        !s.contains(d),
    ensures
        forall|i: int|
            0 <= i < split_char(s, c).len() ==> !(#[trigger] split_char(s, c)[i]).contains(d),
    decreases s.len(),
{
    if s.len() == 0 {
        assert(!split_char(s, c)[0].contains(d));
    } else {
        assert(!s.drop_last().contains(d)) by {
            assert(forall|i: int| 0 <= i < s.len() - 1 ==> s.drop_last()[i] == s[i]);
        }
        lemma_split_nocontain(s.drop_last(), c, d);
        lemma_split_len(s.drop_last(), c);
        let r = split_char(s.drop_last(), c);
        assert(s.last() != d) by {
            assert(s[s.len() - 1] == s.last());
        }
        if s.last() == c {
            assert(!split_char(s, c)[split_char(s, c).len() - 1].contains(d));
        } else {
            assert forall|i: int| 0 <= i < split_char(s, c).len() implies !(
            #[trigger] split_char(s, c)[i]).contains(d) by {
                if i < split_char(s, c).len() - 1 {
                    assert(split_char(s, c)[i] == r[i]);
                } else {
                    assert(split_char(s, c)[i] == r.last().push(s.last()));
                    assert(!r[r.len() - 1].contains(d));
                    assert forall|j: int| 0 <= j < r.last().push(s.last()).len() implies r.last()
                        .push(s.last())[j] != d by {
                        if j < r.last().len() {
                            assert(r.last()[j] != d);
                        }
                    }
                }
            }
        }
    }
}

/// Drops every leading `c` from `s`.
pub open spec fn trim_start_char(s: Seq<char>, c: char) -> Seq<char>
    decreases s.len(),
{
    if s.len() > 0 && s.first() == c {
        trim_start_char(s.drop_first(), c)
    } else {
        s
    }
}

/// Drops every trailing `c` from `s`.
pub open spec fn trim_end_char(s: Seq<char>, c: char) -> Seq<char>
    decreases s.len(),
{
    if s.len() > 0 && s.last() == c {
        trim_end_char(s.drop_last(), c)
    } else {
        s
    }
}

/// Drops every leading and trailing `c` from `s`.
pub open spec fn trim_char(s: Seq<char>, c: char) -> Seq<char> {
    trim_end_char(trim_start_char(s, c), c)
}

pub proof fn lemma_trim_start_free(s: Seq<char>, c: char)
    requires
        !s.contains(c),
    ensures
        trim_start_char(s, c) == s,
{
    if s.len() > 0 {
        assert(s[0] != c);
    }
}

pub proof fn lemma_trim_end_free(s: Seq<char>, c: char)
    requires
        !s.contains(c),
    ensures
        trim_end_char(s, c) == s,
{
    if s.len() > 0 {
        assert(s[s.len() - 1] != c);
    }
}

/// Trimming the start keeps a suffix: characters absent from the input stay
/// absent, and a non-empty result never starts with the trimmed character.
pub proof fn lemma_trim_start_props(s: Seq<char>, c: char, d: char)
    requires
        !s.contains(d),
    ensures
        !trim_start_char(s, c).contains(d),
        trim_start_char(s, c).len() > 0 ==> trim_start_char(s, c)[0] != c,
    decreases s.len(),
{
    if s.len() > 0 && s.first() == c {
        assert(!s.drop_first().contains(d)) by {
            assert(forall|i: int| 0 <= i < s.len() - 1 ==> s.drop_first()[i] == s[i + 1]);
        }
        lemma_trim_start_props(s.drop_first(), c, d);
    }
}

/// Trimming the end keeps a prefix: characters absent from the input stay
/// absent, a non-empty result never ends with the trimmed character, and
/// the first character is kept.
pub proof fn lemma_trim_end_props(s: Seq<char>, c: char, d: char)
    requires
        !s.contains(d),
    ensures
        !trim_end_char(s, c).contains(d),
        trim_end_char(s, c).len() > 0 ==> trim_end_char(s, c).last() != c,
        trim_end_char(s, c).len() > 0 ==> s.len() > 0 && trim_end_char(s, c)[0] == s[0],
    decreases s.len(),
{
    if s.len() > 0 && s.last() == c {
        assert(!s.drop_last().contains(d)) by {
            assert(forall|i: int| 0 <= i < s.len() - 1 ==> s.drop_last()[i] == s[i]);
        }
        lemma_trim_end_props(s.drop_last(), c, d);
        if trim_end_char(s, c).len() > 0 {
            assert(s.drop_last()[0] == s[0]);
        }
    }
}

/// Characters absent from both parts are absent from a concatenation.
pub proof fn lemma_concat_nocontain(a: Seq<char>, b: Seq<char>, d: char)
    requires
        !a.contains(d),
        !b.contains(d),
    ensures
        !(a + b).contains(d),
{
    assert forall|i: int| 0 <= i < (a + b).len() implies (a + b)[i] != d by {
        if i < a.len() {
            assert((a + b)[i] == a[i]);
        } else {
            assert((a + b)[i] == b[i - a.len()]);
        }
    }
}

/// Every kept token is one of the original tokens, and non-empty.
pub proof fn lemma_filter_nonempty_props(ts: Seq<Seq<char>>)
    ensures
        forall|k: int|
            0 <= k < filter_nonempty(ts).len() ==> (#[trigger] filter_nonempty(ts)[k]).len() > 0
                && exists|i: int| 0 <= i < ts.len() && ts[i] == filter_nonempty(ts)[k],
    decreases ts.len(),
{
    if ts.len() > 0 {
        lemma_filter_nonempty_props(ts.drop_last());
        assert forall|k: int| 0 <= k < filter_nonempty(ts).len() implies (
        #[trigger] filter_nonempty(ts)[k]).len() > 0 && exists|i: int|
            0 <= i < ts.len() && ts[i] == filter_nonempty(ts)[k] by {
            let r = filter_nonempty(ts.drop_last());
            if ts.last().len() > 0 && k == filter_nonempty(ts).len() - 1 {
                assert(filter_nonempty(ts)[k] == ts.last());
                assert(ts[ts.len() - 1] == filter_nonempty(ts)[k]);
            } else {
                assert(filter_nonempty(ts)[k] == r[k]);
                let i = choose|i: int| 0 <= i < ts.drop_last().len() && ts.drop_last()[i] == r[k];
                assert(ts[i] == filter_nonempty(ts)[k]);
            }
        }
    }
}

/// Joining keeps only the tokens' characters and the separator.
pub proof fn lemma_join_nocontain(p: Seq<Seq<char>>, c: char, d: char)
    requires
        c != d,
        forall|i: int| 0 <= i < p.len() ==> !(#[trigger] p[i]).contains(d),
    ensures
        !join_char(p, c).contains(d),
    decreases p.len(),
{
    if p.len() == 0 {
    } else if p.len() == 1 {
        assert(!p[0].contains(d));
    } else {
        assert(forall|i: int|
            0 <= i < p.drop_last().len() ==> !(#[trigger] p.drop_last()[i]).contains(d));
        lemma_join_nocontain(p.drop_last(), c, d);
        let w = join_char(p.drop_last(), c) + seq![c] + p.last();
        assert(!p[p.len() - 1].contains(d));
        assert forall|i: int| 0 <= i < w.len() implies w[i] != d by {
            if i < join_char(p.drop_last(), c).len() {
                assert(!join_char(p.drop_last(), c).contains(d));
                assert(join_char(p.drop_last(), c)[i] != d);
            } else if i == join_char(p.drop_last(), c).len() {
                assert(w[i] == c);
            } else {
                assert(w[i] == p.last()[i - join_char(p.drop_last(), c).len() - 1]);
            }
        }
    }
}

/// A join starts with the first token's first character.
pub proof fn lemma_join_first(p: Seq<Seq<char>>, c: char)
    requires
        p.len() >= 1,
        p[0].len() > 0,
    ensures
        join_char(p, c).len() > 0,
        join_char(p, c)[0] == p[0][0],
    decreases p.len(),
{
    if p.len() > 1 {
        assert(p.drop_last()[0] == p[0]);
        lemma_join_first(p.drop_last(), c);
    }
}

/// A join ends with the last token's last character.
pub proof fn lemma_join_last(p: Seq<Seq<char>>, c: char)
    requires
        p.len() >= 1,
        p.last().len() > 0,
    ensures
        join_char(p, c).len() > 0,
        join_char(p, c).last() == p.last().last(),
{
    if p.len() > 1 {
        let w = join_char(p.drop_last(), c) + seq![c] + p.last();
        assert(w.last() == p.last().last());
    }
}

/// ASCII case folding of one character; non-letters are unchanged.
pub open spec fn lower_char(c: char) -> char {
    if 65 <= c as u32 && c as u32 <= 90 {
        (((c as u32) + 32) as u8) as char
    } else {
        c
    }
}

/// ASCII case folding of a character sequence.
pub open spec fn lower_seq(s: Seq<char>) -> Seq<char> {
    Seq::new(s.len(), |i: int| lower_char(s[i]))
}

/// Folds one character to ASCII lower case.
pub fn lower(c: char) -> (r: char)
    ensures
        r == lower_char(c),
{
    let u = c as u32;
    if 65 <= u && u <= 90 {
        ((u + 32) as u8) as char
    } else {
        c
    }
}

/// Character-by-character string equality.
pub fn str_eq(a: &str, b: &str) -> (r: bool)
    ensures
        r == (a@ == b@),
{
    let an = a.unicode_len();
    let bn = b.unicode_len();
    if an != bn {
        return false;
    }
    let mut i: usize = 0;
    while i < an
        invariant
            an == a@.len(),
            an == b@.len(),
            0 <= i <= an,
            forall|j: int| 0 <= j < i ==> a@[j] == b@[j],
        decreases an - i,
    {
        if a.get_char(i) != b.get_char(i) {
            return false;
        }
        i += 1;
    }
    proof {
        assert(a@ =~= b@);
    }
    true
}

/// String equality up to ASCII case.
pub fn str_eq_ignore_case(a: &str, b: &str) -> (r: bool)
    ensures
        r == (lower_seq(a@) == lower_seq(b@)),
{
    let an = a.unicode_len();
    let bn = b.unicode_len();
    if an != bn {
        assert(lower_seq(a@).len() != lower_seq(b@).len());
        return false;
    }
    let mut i: usize = 0;
    while i < an
        invariant
            an == a@.len(),
            an == b@.len(),
            0 <= i <= an,
            forall|j: int| 0 <= j < i ==> lower_char(a@[j]) == lower_char(b@[j]),
        decreases an - i,
    {
        if lower(a.get_char(i)) != lower(b.get_char(i)) {
            assert(lower_seq(a@)[i as int] != lower_seq(b@)[i as int]);
            return false;
        }
        i += 1;
    }
    proof {
        assert(lower_seq(a@) =~= lower_seq(b@));
    }
    true
}

/// Splits `s` on `c`, keeping empty tokens.
pub fn split_str(s: &str, c: char) -> (r: Vec<String>)
    ensures
        strs_view(r@) == split_char(s@, c),
{
    let n = s.unicode_len();
    let mut r: Vec<String> = Vec::new();
    let mut start: usize = 0;
    let mut i: usize = 0;
    proof {
        assert(s@.take(0) =~= Seq::<char>::empty());
        assert(strs_view(r@).push(s@.subrange(0, 0)) =~= split_char(s@.take(0), c));
    }
    while i < n
        invariant
            n == s@.len(),
            0 <= start <= i <= n,
            strs_view(r@).push(s@.subrange(start as int, i as int)) == split_char(
                s@.take(i as int),
                c,
            ),
        decreases n - i,
    {
        let ghost pre = r@;
        if s.get_char(i) == c {
            let tok = String::from_str(s.substring_char(start, i));
            r.push(tok);
            proof {
                assert(s@.take(i + 1).last() == c);
                assert(s@.take(i + 1).drop_last() =~= s@.take(i as int));
                assert(strs_view(r@) =~= strs_view(pre).push(s@.subrange(start as int, i as int)));
                assert(s@.subrange(i + 1, i + 1) =~= Seq::<char>::empty());
                assert(strs_view(r@).push(s@.subrange(i + 1, i + 1)) =~= split_char(
                    s@.take(i + 1),
                    c,
                ));
            }
            start = i + 1;
        } else {
            proof {
                assert(s@.take(i + 1).last() == s@[i as int]);
                assert(s@.take(i + 1).drop_last() =~= s@.take(i as int));
                let r0 = split_char(s@.take(i as int), c);
                assert(r0 == strs_view(r@).push(s@.subrange(start as int, i as int)));
                assert(r0.drop_last() =~= strs_view(r@));
                assert(r0.last() == s@.subrange(start as int, i as int));
                assert(s@.subrange(start as int, i as int).push(s@[i as int]) =~= s@.subrange(
                    start as int,
                    i + 1,
                ));
                assert(strs_view(r@).push(s@.subrange(start as int, i + 1)) =~= split_char(
                    s@.take(i + 1),
                    c,
                ));
            }
        }
        i += 1;
    }
    let ghost pre = r@;
    let tok = String::from_str(s.substring_char(start, n));
    r.push(tok);
    proof {
        assert(s@.take(n as int) =~= s@);
        assert(strs_view(r@) =~= strs_view(pre).push(s@.subrange(start as int, n as int)));
    }
    r
}

/// With every character before `lo` equal to `c` and the one at `lo` (if
/// any) different, trimming the start drops exactly the first `lo` characters.
pub proof fn lemma_trim_start_at(s: Seq<char>, c: char, lo: int)
    requires
        0 <= lo <= s.len(),
        forall|j: int| 0 <= j < lo ==> s[j] == c,
        lo == s.len() || s[lo] != c,
    ensures
        trim_start_char(s, c) == s.subrange(lo, s.len() as int),
    decreases lo,
{
    if lo == 0 {
        assert(s.subrange(0, s.len() as int) =~= s);
    } else {
        assert(s.first() == c);
        assert(s.drop_first() =~= s.subrange(1, s.len() as int));
        lemma_trim_start_at(s.drop_first(), c, lo - 1);
        assert(s.drop_first().subrange(lo - 1, s.drop_first().len() as int) =~= s.subrange(
            lo,
            s.len() as int,
        ));
    }
}

/// With every character from `hi` on equal to `c` and the one before `hi`
/// (if any) different, trimming the end keeps exactly the first `hi` characters.
pub proof fn lemma_trim_end_at(s: Seq<char>, c: char, hi: int)
    requires
        0 <= hi <= s.len(),
        forall|j: int| hi <= j < s.len() ==> s[j] == c,
        hi == 0 || s[hi - 1] != c,
    ensures
        trim_end_char(s, c) == s.subrange(0, hi),
    decreases s.len() - hi,
{
    if hi == s.len() {
        assert(s.subrange(0, hi) =~= s);
        if s.len() > 0 {
            assert(s.last() != c);
        }
    } else {
        assert(s.last() == c);
        assert(s.drop_last() =~= s.subrange(0, s.len() - 1));
        lemma_trim_end_at(s.drop_last(), c, hi);
        assert(s.drop_last().subrange(0, hi) =~= s.subrange(0, hi));
    }
}

/// Drops leading and trailing `c` characters.
pub fn trim_str<'a>(s: &'a str, c: char) -> (r: &'a str)
    ensures
        r@ == trim_char(s@, c),
{
    let n = s.unicode_len();
    let mut lo: usize = 0;
    loop
        invariant
            n == s@.len(),
            0 <= lo <= n,
            forall|j: int| 0 <= j < lo ==> s@[j] == c,
        ensures
            0 <= lo <= n,
            forall|j: int| 0 <= j < lo ==> s@[j] == c,
            lo == n || s@[lo as int] != c,
        decreases n - lo,
    {
        if lo == n {
            break ;
        }
        if s.get_char(lo) != c {
            break ;
        }
        lo += 1;
    }
    let mut hi: usize = n;
    loop
        invariant
            n == s@.len(),
            lo <= hi <= n,
            forall|j: int| hi <= j < n ==> s@[j] == c,
        ensures
            lo <= hi <= n,
            forall|j: int| hi <= j < n ==> s@[j] == c,
            hi == lo || s@[hi - 1] != c,
        decreases hi,
    {
        if hi == lo {
            break ;
        }
        if s.get_char(hi - 1) != c {
            break ;
        }
        hi -= 1;
    }
    proof {
        lemma_trim_start_at(s@, c, lo as int);
        let t = s@.subrange(lo as int, n as int);
        if hi == lo && lo < n {
            // everything from lo on is c, and s[lo] != c is impossible then
            assert(s@[lo as int] == c);
            assert(false);
        }
        lemma_trim_end_at(t, c, hi - lo);
        assert(t.subrange(0, hi - lo) =~= s@.subrange(lo as int, hi as int));
    }
    s.substring_char(lo, hi)
}

/// Keeps only the non-empty tokens, preserving order.
pub open spec fn filter_nonempty(ts: Seq<Seq<char>>) -> Seq<Seq<char>>
    decreases ts.len(),
{
    if ts.len() == 0 {
        Seq::<Seq<char>>::empty()
    } else {
        let r = filter_nonempty(ts.drop_last());
        if ts.last().len() > 0 {
            r.push(ts.last())
        } else {
            r
        }
    }
}

/// Drops the empty strings from a vector of tokens.
pub fn drop_empty(ts: &Vec<String>) -> (r: Vec<String>)
    ensures
        strs_view(r@) == filter_nonempty(strs_view(ts@)),
{
    let mut r: Vec<String> = Vec::new();
    let mut i: usize = 0;
    proof {
        assert(strs_view(ts@).take(0) =~= Seq::<Seq<char>>::empty());
        assert(strs_view(r@) =~= filter_nonempty(strs_view(ts@).take(0)));
    }
    while i < ts.len()
        invariant
            0 <= i <= ts@.len(),
            strs_view(r@) == filter_nonempty(strs_view(ts@).take(i as int)),
        decreases ts@.len() - i,
    {
        let ghost pre = r@;
        if ts[i].as_str().unicode_len() > 0 {
            r.push(ts[i].clone());
        }
        proof {
            let full = strs_view(ts@);
            assert(full.take(i + 1).drop_last() =~= full.take(i as int));
            assert(full.take(i + 1).last() == ts@[i as int]@);
            if ts@[i as int]@.len() > 0 {
                assert(strs_view(r@) =~= strs_view(pre).push(ts@[i as int]@));
            }
            assert(strs_view(r@) =~= filter_nonempty(full.take(i + 1)));
        }
        i += 1;
    }
    proof {
        assert(strs_view(ts@).take(ts@.len() as int) =~= strs_view(ts@));
    }
    r
}

} // verus!
