//! Character-sequence utilities: whitespace trimming, prefix tests and
//! line splitting, each specified over `Seq<char>` views.

use vstd::prelude::*;

verus! {

/// The whitespace characters recognised when trimming a listing line,
/// mirroring the set that Unicode marks with `White_Space`.
pub open spec fn is_space_char(c: char) -> bool {
    c == ' ' || c == '\t' || c == '\n' || c == '\r' || c == '\u{b}' || c == '\u{c}'
        || c == '\u{85}' || c == '\u{a0}' || c == '\u{1680}' || c == '\u{2000}'
        || c == '\u{2001}' || c == '\u{2002}' || c == '\u{2003}' || c == '\u{2004}'
        || c == '\u{2005}' || c == '\u{2006}' || c == '\u{2007}' || c == '\u{2008}'
        || c == '\u{2009}' || c == '\u{200a}' || c == '\u{2028}' || c == '\u{2029}'
        || c == '\u{202f}' || c == '\u{205f}' || c == '\u{3000}'
}

/// Decides `is_space_char` executably.
pub fn is_space(c: char) -> (b: bool)
    ensures
        b == is_space_char(c),
{
    c == ' ' || c == '\t' || c == '\n' || c == '\r' || c == '\u{b}' || c == '\u{c}'
        || c == '\u{85}' || c == '\u{a0}' || c == '\u{1680}' || c == '\u{2000}'
        || c == '\u{2001}' || c == '\u{2002}' || c == '\u{2003}' || c == '\u{2004}'
        || c == '\u{2005}' || c == '\u{2006}' || c == '\u{2007}' || c == '\u{2008}'
        || c == '\u{2009}' || c == '\u{200a}' || c == '\u{2028}' || c == '\u{2029}'
        || c == '\u{202f}' || c == '\u{205f}' || c == '\u{3000}'
}

/// `p` is a prefix of `s`.
pub open spec fn seq_starts_with(s: Seq<char>, p: Seq<char>) -> bool {
    p.len() <= s.len() && s.subrange(0, p.len() as int) == p
}

/// Decides whether `s` begins with the prefix `p`.
pub fn str_starts_with(s: &str, p: &str) -> (b: bool)
    ensures
        b == seq_starts_with(s@, p@),
{
    let n = s.unicode_len();
    let m = p.unicode_len();
    if m > n {
        assert(!seq_starts_with(s@, p@));
        return false;
    }
    let mut i: usize = 0;
    while i < m
        invariant
            i <= m,
            m <= n,
            n == s@.len(),
            m == p@.len(),
            forall|k: int| 0 <= k < i ==> s@[k] == p@[k],
        decreases m - i,
    {
        if s.get_char(i) != p.get_char(i) {
            assert(s@.subrange(0, m as int)[i as int] != p@[i as int]);
            return false;
        }
        i += 1;
    }
    assert(s@.subrange(0, m as int) =~= p@);
    true
}

/// `s` without its leading whitespace.
pub open spec fn trim_start_spec(s: Seq<char>) -> Seq<char>
    decreases s.len(),
{
    if s.len() > 0 && is_space_char(s[0]) {
        trim_start_spec(s.drop_first())
    } else {
        s
    }
}

/// `s` without its trailing whitespace.
pub open spec fn trim_end_spec(s: Seq<char>) -> Seq<char>
    decreases s.len(),
{
    if s.len() > 0 && is_space_char(s.last()) {
        trim_end_spec(s.drop_last())
    } else {
        s
    }
}

/// `s` without leading or trailing whitespace.
pub open spec fn trim_spec(s: Seq<char>) -> Seq<char> {
    trim_end_spec(trim_start_spec(s))
}

/// If the first `k` characters of `s` are whitespace and the one after them
/// (if any) is not, trimming the start of `s` drops exactly those `k`.
pub proof fn lemma_trim_start_skip(s: Seq<char>, k: int)
    requires
        0 <= k <= s.len(),
        forall|i: int| 0 <= i < k ==> is_space_char(s[i]),
        k < s.len() ==> !is_space_char(s[k]),
    ensures
        trim_start_spec(s) == s.skip(k),
    decreases k,
{
    if k == 0 {
        assert(trim_start_spec(s) =~= s.skip(0));
    } else {
        assert(is_space_char(s[0]));
        assert(s.drop_first() =~= s.skip(1));
        assert forall|i: int| 0 <= i < k - 1 implies is_space_char(s.skip(1)[i]) by {
            assert(s.skip(1)[i] == s[i + 1]);
        }
        lemma_trim_start_skip(s.skip(1), k - 1);
        assert(s.skip(1).skip(k - 1) =~= s.skip(k));
    }
}

/// If every character of `s` from position `k` on is whitespace and the one
/// just before (if any) is not, trimming the end of `s` keeps exactly `k`.
pub proof fn lemma_trim_end_take(s: Seq<char>, k: int)
    requires
        0 <= k <= s.len(),
        forall|i: int| k <= i < s.len() ==> is_space_char(s[i]),
        k > 0 ==> !is_space_char(s[k - 1]),
    ensures
        trim_end_spec(s) == s.take(k),
    decreases s.len() - k,
{
    if k == s.len() {
        assert(trim_end_spec(s) =~= s.take(k));
    } else {
        assert(is_space_char(s.last()));
        assert(s.drop_last() =~= s.take(s.len() - 1));
        lemma_trim_end_take(s.take(s.len() - 1), k);
        assert(s.take(s.len() - 1).take(k) =~= s.take(k));
    }
}

/// A start-trimmed sequence never begins with whitespace.
pub proof fn lemma_trim_start_head(s: Seq<char>)
    ensures
        trim_start_spec(s).len() > 0 ==> !is_space_char(trim_start_spec(s)[0]),
    decreases s.len(),
{
    if s.len() > 0 && is_space_char(s[0]) {
        lemma_trim_start_head(s.drop_first());
    }
}

/// An end-trimmed sequence is a prefix of the original that never ends
/// with whitespace.
pub proof fn lemma_trim_end_props(s: Seq<char>)
    ensures
        trim_end_spec(s).len() <= s.len(),
        forall|i: int| 0 <= i < trim_end_spec(s).len() ==> trim_end_spec(s)[i] == s[i],
        trim_end_spec(s).len() > 0 ==> !is_space_char(trim_end_spec(s).last()),
    decreases s.len(),
{
    if s.len() > 0 && is_space_char(s.last()) {
        lemma_trim_end_props(s.drop_last());
        assert forall|i: int| 0 <= i < trim_end_spec(s).len() implies trim_end_spec(s)[i]
            == s[i] by {
            assert(trim_end_spec(s)[i] == s.drop_last()[i]);
        }
    }
}

/// Returns `s` with surrounding whitespace removed.
pub fn trim(s: &str) -> (r: &str)
    ensures
        r@ == trim_spec(s@),
{
    let n = s.unicode_len();
    let mut a: usize = 0;
    while a < n && is_space(s.get_char(a))
        invariant
            a <= n,
            n == s@.len(),
            forall|i: int| 0 <= i < a ==> is_space_char(s@[i]),
        decreases n - a,
    {
        a += 1;
    }
    let mut b: usize = n;
    while b > a && is_space(s.get_char(b - 1))
        invariant
            a <= b <= n,
            n == s@.len(),
            forall|i: int| b <= i < n ==> is_space_char(s@[i]),
        decreases b,
    {
        b -= 1;
    }
    proof {
        lemma_trim_start_skip(s@, a as int);
        let t = s@.skip(a as int);
        assert forall|i: int| b - a <= i < t.len() implies is_space_char(t[i]) by {
            assert(t[i] == s@[i + a]);
        }
        if b > a {
            assert(t[b - a - 1] == s@[b - 1]);
        }
        lemma_trim_end_take(t, b - a as int);
        assert(t.take(b - a as int) =~= s@.subrange(a as int, b as int));
    }
    s.substring_char(a, b)
}

/// `s` without its leading `*` markers.
pub open spec fn drop_stars_spec(s: Seq<char>) -> Seq<char>
    decreases s.len(),
{
    if s.len() > 0 && s[0] == '*' {
        drop_stars_spec(s.drop_first())
    } else {
        s
    }
}

/// If the first `k` characters of `s` are `*` and the one after them
/// (if any) is not, dropping the leading stars drops exactly those `k`.
pub proof fn lemma_drop_stars_skip(s: Seq<char>, k: int)
    requires
        0 <= k <= s.len(),
        forall|i: int| 0 <= i < k ==> s[i] == '*',
        k < s.len() ==> s[k] != '*',
    ensures
        drop_stars_spec(s) == s.skip(k),
    decreases k,
{
    if k == 0 {
        assert(drop_stars_spec(s) =~= s.skip(0));
    } else {
        assert(s.drop_first() =~= s.skip(1));
        assert forall|i: int| 0 <= i < k - 1 implies s.skip(1)[i] == '*' by {
            assert(s.skip(1)[i] == s[i + 1]);
        }
        lemma_drop_stars_skip(s.skip(1), k - 1);
        assert(s.skip(1).skip(k - 1) =~= s.skip(k));
    }
}

/// Number of characters before the first line break of `s` (the whole
/// length when `s` has no line break).
pub open spec fn line_break(s: Seq<char>) -> nat
    decreases s.len(),
{
    if s.len() == 0 {
        0
    } else if s[0] == '\n' {
        0
    } else {
        (line_break(s.drop_first()) + 1) as nat
    }
}

/// Any position with ordinary text before it and a line break (or the end
/// of `s`) at it is the position `line_break` names.
pub proof fn lemma_line_break_at(s: Seq<char>, k: int)
    requires
        0 <= k <= s.len(),
        forall|i: int| 0 <= i < k ==> s[i] != '\n',
        k < s.len() ==> s[k] == '\n',
    ensures
        line_break(s) == k,
    decreases k,
{
    if k == 0 {
    } else {
        assert(s[0] != '\n');
        assert forall|i: int| 0 <= i < k - 1 implies s.drop_first()[i] != '\n' by {
            assert(s.drop_first()[i] == s[i + 1]);
        }
        if k - 1 < s.drop_first().len() {
            assert(s.drop_first()[k - 1] == s[k]);
        }
        lemma_line_break_at(s.drop_first(), k - 1);
    }
}

/// The lines of `s`, in order, split at each line break; the separators
/// themselves are not part of any line.
pub open spec fn split_lines_spec(s: Seq<char>) -> Seq<Seq<char>>
    decreases s.len(),
{
    let k = line_break(s);
    if k >= s.len() {
        seq![s]
    } else {
        seq![s.take(k as int)] + split_lines_spec(s.skip(k as int + 1))
    }
}

/// Splits `s` at each line break, keeping every (possibly empty) piece.
pub fn split_lines(s: &str) -> (v: Vec<String>)
    ensures
        v.deep_view() == split_lines_spec(s@),
{
    let n = s.unicode_len();
    let mut v: Vec<String> = Vec::new();
    let mut p: usize = 0;
    proof {
        assert(s@.skip(0) =~= s@);
        assert(v.deep_view() + split_lines_spec(s@) =~= split_lines_spec(s@));
    }
    loop
        invariant_except_break
            p <= n,
            n == s@.len(),
            split_lines_spec(s@) == v.deep_view() + split_lines_spec(s@.skip(p as int)),
        ensures
            v.deep_view() == split_lines_spec(s@),
        decreases n - p,
    {
        let ghost old_dv = v.deep_view();
        let mut j: usize = p;
        while j < n && s.get_char(j) != '\n'
            invariant
                p <= j <= n,
                n == s@.len(),
                forall|i: int| p <= i < j ==> s@[i] != '\n',
            decreases n - j,
        {
            j += 1;
        }
        let piece = String::from_str(s.substring_char(p, j));
        v.push(piece);
        proof {
            let t = s@.skip(p as int);
            assert forall|i: int| 0 <= i < j - p implies t[i] != '\n' by {
                assert(t[i] == s@[i + p]);
            }
            if j < n {
                assert(t[j - p as int] == s@[j as int]);
            }
            lemma_line_break_at(t, j - p as int);
            assert(s@.subrange(p as int, j as int) =~= t.take(j - p as int));
            assert(v.deep_view() =~= old_dv.push(t.take(j - p as int)));
        }
        if j == n {
            proof {
                let t = s@.skip(p as int);
                assert(t.take(j - p as int) =~= t);
                assert(split_lines_spec(t) == seq![t]);
                assert(old_dv + split_lines_spec(t) =~= v.deep_view());
            }
            break;
        }
        proof {
            let t = s@.skip(p as int);
            assert(split_lines_spec(t) == seq![t.take(j - p as int)] + split_lines_spec(
                t.skip(j - p as int + 1),
            ));
            assert(t.skip(j - p as int + 1) =~= s@.skip(j as int + 1));
            assert(old_dv + split_lines_spec(t) =~= v.deep_view() + split_lines_spec(
                s@.skip(j as int + 1),
            ));
        }
        p = j + 1;
    }
    v
}

/// The two-character separator `<-` begins at position `i` of `s`.
pub open spec fn sep_at(s: Seq<char>, i: int) -> bool {
    i + 1 < s.len() && s[i] == '<' && s[i + 1] == '-'
}

/// Number of characters before the first `<-` separator of `s` (the whole
/// length when `s` has none).
pub open spec fn sep_break(s: Seq<char>) -> nat
    decreases s.len(),
{
    if s.len() == 0 {
        0
    } else if sep_at(s, 0) {
        0
    } else {
        (sep_break(s.drop_first()) + 1) as nat
    }
}

/// Any position with no separator before it and a separator (or the end
/// of `s`) at it is the position `sep_break` names.
pub proof fn lemma_sep_break_at(s: Seq<char>, k: int)
    requires
        0 <= k <= s.len(),
        forall|i: int| 0 <= i < k ==> !sep_at(s, i),
        k < s.len() ==> sep_at(s, k),
    ensures
        sep_break(s) == k,
    decreases k,
{
    if k == 0 {
    } else {
        assert(!sep_at(s, 0));
        assert forall|i: int| 0 <= i < k - 1 implies !sep_at(s.drop_first(), i) by {
            assert(s.drop_first()[i] == s[i + 1]);
            if i + 1 < s.drop_first().len() {
                assert(s.drop_first()[i + 1] == s[i + 2]);
            }
            assert(!sep_at(s, i + 1));
        }
        if k - 1 < s.drop_first().len() {
            assert(s.drop_first()[k - 1] == s[k]);
            assert(s.drop_first()[k] == s[k + 1]);
        }
        lemma_sep_break_at(s.drop_first(), k - 1);
    }
}

/// The pieces of `s`, in order, split at each `<-` separator; the
/// separators themselves are not part of any piece.
pub open spec fn split_sep_spec(s: Seq<char>) -> Seq<Seq<char>>
    decreases s.len(),
{
    let k = sep_break(s);
    if k + 2 <= s.len() {
        seq![s.take(k as int)] + split_sep_spec(s.skip(k as int + 2))
    } else {
        seq![s]
    }
}

/// Splits `s` at each `<-` separator, keeping every (possibly empty) piece.
pub fn split_sep(s: &str) -> (v: Vec<String>)
    ensures
        v.deep_view() == split_sep_spec(s@),
{
    let n = s.unicode_len();
    let mut v: Vec<String> = Vec::new();
    let mut p: usize = 0;
    proof {
        assert(s@.skip(0) =~= s@);
        assert(v.deep_view() + split_sep_spec(s@) =~= split_sep_spec(s@));
    }
    loop
        invariant_except_break
            p <= n,
            n == s@.len(),
            split_sep_spec(s@) == v.deep_view() + split_sep_spec(s@.skip(p as int)),
        ensures
            v.deep_view() == split_sep_spec(s@),
        decreases n - p,
    {
        let ghost old_dv = v.deep_view();
        let mut j: usize = p;
        while j < n && !(s.get_char(j) == '<' && j + 1 < n && s.get_char(j + 1) == '-')
            invariant
                p <= j <= n,
                n == s@.len(),
                forall|i: int| p <= i < j ==> !sep_at(s@, i),
            decreases n - j,
        {
            j += 1;
        }
        let piece = String::from_str(s.substring_char(p, j));
        v.push(piece);
        proof {
            let t = s@.skip(p as int);
            assert forall|i: int| 0 <= i < j - p implies !sep_at(t, i) by {
                assert(t[i] == s@[i + p]);
                if i + 1 < t.len() {
                    assert(t[i + 1] == s@[i + p + 1]);
                }
                assert(!sep_at(s@, i + p));
            }
            if j < n {
                assert(t[j - p as int] == s@[j as int]);
                assert(t[j - p as int + 1] == s@[j as int + 1]);
            }
            lemma_sep_break_at(t, j - p as int);
            assert(s@.subrange(p as int, j as int) =~= t.take(j - p as int));
            assert(v.deep_view() =~= old_dv.push(t.take(j - p as int)));
        }
        if j == n {
            proof {
                let t = s@.skip(p as int);
                assert(t.take(j - p as int) =~= t);
                assert(split_sep_spec(t) == seq![t]);
                assert(old_dv + split_sep_spec(t) =~= v.deep_view());
            }
            break;
        }
        proof {
            let t = s@.skip(p as int);
            assert(split_sep_spec(t) == seq![t.take(j - p as int)] + split_sep_spec(
                t.skip(j - p as int + 2),
            ));
            assert(t.skip(j - p as int + 2) =~= s@.skip(j as int + 2));
            assert(old_dv + split_sep_spec(t) =~= v.deep_view() + split_sep_spec(
                s@.skip(j as int + 2),
            ));
        }
        p = j + 2;
    }
    v
}

} // verus!
