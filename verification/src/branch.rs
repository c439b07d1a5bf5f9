//! The typed branch model: parsing a listing line into a `Branch`, the
//! map from remote refs to the local branches tracking them, and the
//! enumeration of all branches with redundant remote entries filtered.

use vstd::prelude::*;

use crate::text::{
    drop_stars_spec, is_space, is_space_char, lemma_drop_stars_skip, lemma_trim_end_take,
    lemma_trim_end_props, lemma_trim_start_head, lemma_trim_start_skip, seq_starts_with,
    split_lines, split_lines_spec, split_sep, split_sep_spec, str_starts_with, trim,
    trim_spec, trim_start_spec,
};

verus! {

/// Mathematical image of a `Branch`: the same four fields over
/// character sequences.
pub struct BranchView {
    pub name: Seq<char>,
    pub is_current: bool,
    pub is_remote: bool,
    pub tracked_by: Option<Seq<char>>,
}

/// One branch of the repository, as the listing reports it.
///
/// `name` is the short name (for remote branches of the form
/// `<remote>/<path>`); `is_current` marks the checked-out branch;
/// `is_remote` marks entries from the remote-tracking namespace; and
/// `tracked_by`, used for remote branches only, names the local branch
/// whose upstream this entry is.
#[derive(Clone, Debug)]
pub struct Branch {
    pub name: String,
    pub is_current: bool,
    pub is_remote: bool,
    pub tracked_by: Option<String>,
}

impl View for Branch {
    type V = BranchView;

    open spec fn view(&self) -> BranchView {
        BranchView {
            name: self.name@,
            is_current: self.is_current,
            is_remote: self.is_remote,
            tracked_by: match self.tracked_by {
                Some(t) => Some(t@),
                None => None,
            },
        }
    }
}

impl Branch {
    /// Builds the record from its parts.
    pub fn new(name: String, is_current: bool, is_remote: bool, tracked_by: Option<String>) -> (b:
        Branch)
        ensures
            b.name == name,
            b.is_current == is_current,
            b.is_remote == is_remote,
            b.tracked_by == tracked_by,
    {
        Branch { name, is_current, is_remote, tracked_by }
    }

    /// An owned copy of the record.
    pub fn duplicate(&self) -> (b: Branch)
        ensures
            b == *self,
    {
        Branch {
            name: self.name.clone(),
            is_current: self.is_current,
            is_remote: self.is_remote,
            tracked_by: match &self.tracked_by {
                Some(t) => Some(t.clone()),
                None => None,
            },
        }
    }
}

/// The `remotes/` namespace marker of the listing.
pub open spec fn remotes_prefix() -> Seq<char> {
    seq!['r', 'e', 'm', 'o', 't', 'e', 's', '/']
}

/// Map entries in insertion order, keyed by remote-ref name (`.0`), each
/// naming the local branch that tracks the key (`.1`).
pub struct TrackingMap {
    entries: Vec<(String, String)>,
}

impl View for TrackingMap {
    type V = Seq<(Seq<char>, Seq<char>)>;

    closed spec fn view(&self) -> Seq<(Seq<char>, Seq<char>)> {
        self.entries.deep_view()
    }
}

/// The value for `key` among `entries`; when several entries share the
/// key, the latest insertion wins.
pub open spec fn lookup_spec(entries: Seq<(Seq<char>, Seq<char>)>, key: Seq<char>) -> Option<
    Seq<char>,
>
    decreases entries.len(),
{
    if entries.len() == 0 {
        None
    } else if entries.last().0 == key {
        Some(entries.last().1)
    } else {
        lookup_spec(entries.drop_last(), key)
    }
}

impl TrackingMap {
    /// An empty map.
    pub fn new() -> (m: TrackingMap)
        ensures
            m@ == Seq::<(Seq<char>, Seq<char>)>::empty(),
    {
        let m = TrackingMap { entries: Vec::new() };
        proof {
            assert(m@ =~= Seq::<(Seq<char>, Seq<char>)>::empty());
        }
        m
    }

    /// Records that the local branch `local` tracks the remote ref
    /// `upstream`; a repeated key shadows the earlier entry.
    pub fn insert(&mut self, upstream: String, local: String)
        ensures
            final(self)@ == old(self)@.push((upstream@, local@)),
    {
        let ghost pre = self@;
        let ghost u = upstream@;
        let ghost l = local@;
        self.entries.push((upstream, local));
        proof {
            assert(self@ =~= pre.push((u, l)));
        }
    }

    /// The local branch recorded as tracking `key`, if any.
    pub fn lookup(&self, key: &String) -> (r: Option<String>)
        ensures
            match r {
                Some(v) => lookup_spec(self@, key@) == Some(v@),
                None => lookup_spec(self@, key@) is None,
            },
    {
        let mut i: usize = self.entries.len();
        proof {
            assert(self@.take(i as int) =~= self@);
        }
        while i > 0
            invariant
                i <= self.entries.len(),
                self@.len() == self.entries.len(),
                lookup_spec(self@, key@) == lookup_spec(self@.take(i as int), key@),
            decreases i,
        {
            let e = &self.entries[i - 1];
            if e.0 == *key {
                proof {
                    assert(self@[i - 1] == (e.0@, e.1@));
                    assert(self@.take(i as int).last() == self@[i - 1]);
                }
                return Some(e.1.clone());
            }
            proof {
                assert(self@.take(i as int).last() == self@[i - 1]);
                assert(self@.take(i as int).drop_last() =~= self@.take(i - 1));
            }
            i -= 1;
        }
        proof {
            assert(self@.take(0) =~= Seq::<(Seq<char>, Seq<char>)>::empty());
        }
        None
    }
}

/// Strips one leading `remotes/` marker from `s`, if present.
pub open spec fn strip_remotes_spec(s: Seq<char>) -> Seq<char> {
    if seq_starts_with(s, remotes_prefix()) {
        s.skip(remotes_prefix().len() as int)
    } else {
        s
    }
}

/// The record that one trimmed listing line denotes, given the tracking
/// entries: the current marker and the remote namespace are read off the
/// raw line, the name is the line with `remotes/`, the `*` markers and
/// surrounding whitespace removed, in that order, and `tracked_by` is the
/// name's entry among the tracking entries.
pub open spec fn spec_parse_branch(raw: Seq<char>, tm: Seq<(Seq<char>, Seq<char>)>) -> BranchView {
    let name = trim_spec(drop_stars_spec(strip_remotes_spec(raw)));
    BranchView {
        name,
        is_current: raw.len() > 0 && raw[0] == '*',
        is_remote: seq_starts_with(raw, remotes_prefix()),
        tracked_by: lookup_spec(tm, name),
    }
}

/// Parses one listing line into its `Branch` record.
#[verifier::rlimit(30)]
pub fn parse_branch(branch: String, tracking: &TrackingMap) -> (b: Branch)
    ensures
        b@ == spec_parse_branch(branch@, tracking@),
{
    let s = branch.as_str();
    let n = s.unicode_len();
    let is_current = n > 0 && s.get_char(0) == '*';
    let is_remote = str_starts_with(s, "remotes/");
    proof {
        reveal_strlit("remotes/");
        assert("remotes/"@ =~= remotes_prefix());
    }
    let mut a: usize = if is_remote {
        8
    } else {
        0
    };
    let ghost a0 = a as int;
    proof {
        if !is_remote {
            assert(s@.skip(0) =~= s@);
        }
        assert(s@.skip(a0) == strip_remotes_spec(s@));
    }
    while a < n && s.get_char(a) == '*'
        invariant
            a0 <= a <= n,
            n == s@.len(),
            forall|i: int| a0 <= i < a ==> s@[i] == '*',
        decreases n - a,
    {
        a += 1;
    }
    let ghost a1 = a as int;
    proof {
        let r1 = s@.skip(a0);
        assert forall|i: int| 0 <= i < a1 - a0 implies r1[i] == '*' by {
            assert(r1[i] == s@[i + a0]);
        }
        if a1 - a0 < r1.len() {
            assert(r1[a1 - a0] == s@[a1]);
        }
        lemma_drop_stars_skip(r1, a1 - a0);
        assert(r1.skip(a1 - a0) =~= s@.skip(a1));
    }
    while a < n && is_space(s.get_char(a))
        invariant
            a1 <= a <= n,
            n == s@.len(),
            forall|i: int| a1 <= i < a ==> is_space_char(s@[i]),
        decreases n - a,
    {
        a += 1;
    }
    let mut b: usize = n;
    while b > a && is_space(s.get_char(b - 1))
        invariant
            a <= b <= n,
            n == s@.len(),
            forall|i: int| b <= i < n ==> is_space_char(s@[i]),
        decreases b,
    {
        b -= 1;
    }
    proof {
        let r2 = s@.skip(a1);
        assert forall|i: int| 0 <= i < a - a1 implies is_space_char(r2[i]) by {
            assert(r2[i] == s@[i + a1]);
        }
        if a - a1 < r2.len() {
            assert(r2[a as int - a1] == s@[a as int]);
        }
        lemma_trim_start_skip(r2, a - a1);
        assert(r2.skip(a - a1) =~= s@.skip(a as int));
        let r3 = s@.skip(a as int);
        assert forall|i: int| b - a <= i < r3.len() implies is_space_char(r3[i]) by {
            assert(r3[i] == s@[i + a]);
        }
        if b > a {
            assert(r3[b - a - 1] == s@[b - 1]);
        }
        lemma_trim_end_take(r3, b - a as int);
        assert(r3.take(b - a as int) =~= s@.subrange(a as int, b as int));
    }
    let name = String::from_str(s.substring_char(a, b));
    let tracked_by = tracking.lookup(&name);
    Branch { name, is_current, is_remote, tracked_by }
}

/// The trimmed, non-empty fields of a split line, in order.
pub open spec fn nonempty_fields(fs: Seq<Seq<char>>) -> Seq<Seq<char>>
    decreases fs.len(),
{
    if fs.len() == 0 {
        seq![]
    } else {
        nonempty_fields(fs.drop_last()) + (if trim_spec(fs.last()).len() > 0 {
            seq![trim_spec(fs.last())]
        } else {
            seq![]
        })
    }
}

/// One ref line contributes a map entry when exactly two non-empty fields
/// surround the `<-` separator: the upstream (second field) keyed to the
/// local branch (first field).  Any other shape records nothing.
pub open spec fn line_pair(line: Seq<char>) -> Seq<(Seq<char>, Seq<char>)> {
    let fields = nonempty_fields(split_sep_spec(line));
    if fields.len() == 2 {
        seq![(fields[1], fields[0])]
    } else {
        seq![]
    }
}

/// The map entries of all ref lines, in insertion order.
pub open spec fn lines_pairs(lines: Seq<Seq<char>>) -> Seq<(Seq<char>, Seq<char>)>
    decreases lines.len(),
{
    if lines.len() == 0 {
        seq![]
    } else {
        lines_pairs(lines.drop_last()) + line_pair(lines.last())
    }
}

/// The tracking entries that the whole ref-listing text denotes.
pub open spec fn spec_tracking(refs: Seq<char>) -> Seq<(Seq<char>, Seq<char>)> {
    lines_pairs(split_lines_spec(refs))
}

/// Builds the tracking map from the ref-listing text, whose lines have
/// the shape `<local> <- <upstream>`; lines without an upstream are
/// skipped.
pub fn tracked_remote_branches(refs: &str) -> (m: TrackingMap)
    ensures
        m@ == spec_tracking(refs@),
{
    let lines = split_lines(refs);
    let ghost lseq = lines.deep_view();
    let mut m = TrackingMap::new();
    let mut idx: usize = 0;
    proof {
        assert(lseq.take(0) =~= Seq::<Seq<char>>::empty());
    }
    while idx < lines.len()
        invariant
            idx <= lines.len(),
            lseq == lines.deep_view(),
            lseq.len() == lines.len(),
            m@ == lines_pairs(lseq.take(idx as int)),
        decreases lines.len() - idx,
    {
        let pieces = split_sep(lines[idx].as_str());
        let ghost pseq = pieces.deep_view();
        let mut fields: Vec<String> = Vec::new();
        let mut k: usize = 0;
        proof {
            assert(pseq.take(0) =~= Seq::<Seq<char>>::empty());
            assert(fields.deep_view() =~= nonempty_fields(pseq.take(0)));
        }
        while k < pieces.len()
            invariant
                k <= pieces.len(),
                pseq == pieces.deep_view(),
                pseq.len() == pieces.len(),
                fields.deep_view() == nonempty_fields(pseq.take(k as int)),
            decreases pieces.len() - k,
        {
            let ghost pre = fields.deep_view();
            let t = trim(pieces[k].as_str());
            let keep = t.unicode_len() > 0;
            if keep {
                fields.push(String::from_str(t));
                proof {
                    assert(fields.deep_view() =~= pre.push(t@));
                }
            }
            proof {
                assert(pseq.take(k + 1).drop_last() =~= pseq.take(k as int));
                assert(pseq.take(k + 1).last() == pseq[k as int]);
                if keep {
                    assert(pre.push(t@) =~= pre + seq![t@]);
                } else {
                    assert(pre + Seq::<Seq<char>>::empty() =~= pre);
                }
            }
            k += 1;
        }
        proof {
            assert(pseq.take(pseq.len() as int) =~= pseq);
        }
        let ghost pre_m = m@;
        let ghost fdv = fields.deep_view();
        if fields.len() == 2 {
            let upstream = fields.pop().unwrap();
            let local = fields.pop().unwrap();
            proof {
                assert(upstream@ == fdv[1]);
                assert(local@ == fdv[0]);
            }
            m.insert(upstream, local);
            proof {
                assert(m@ =~= pre_m + seq![(fdv[1], fdv[0])]);
            }
        } else {
            proof {
                assert(pre_m + Seq::<(Seq<char>, Seq<char>)>::empty() =~= pre_m);
            }
        }
        proof {
            assert(lseq.take(idx + 1).drop_last() =~= lseq.take(idx as int));
            assert(lseq.take(idx + 1).last() == lseq[idx as int]);
        }
        idx += 1;
    }
    proof {
        assert(lseq.take(lseq.len() as int) =~= lseq);
    }
    m
}

/// Keep a record unless it is a remote entry already tracked locally: the
/// local branch is the canonical handle for that line of history.
pub open spec fn keep_branch(b: BranchView) -> bool {
    !b.is_remote || b.tracked_by is None
}

/// The records that one raw listing line contributes: none when the line
/// is blank or a tracked remote entry, else its parsed record.
pub open spec fn line_branches(line: Seq<char>, tm: Seq<(Seq<char>, Seq<char>)>) -> Seq<
    BranchView,
> {
    if trim_spec(line).len() == 0 {
        seq![]
    } else {
        let b = spec_parse_branch(trim_spec(line), tm);
        if keep_branch(b) {
            seq![b]
        } else {
            seq![]
        }
    }
}

/// The records of all listing lines, in listing order.
pub open spec fn lines_branches(lines: Seq<Seq<char>>, tm: Seq<(Seq<char>, Seq<char>)>) -> Seq<
    BranchView,
>
    decreases lines.len(),
{
    if lines.len() == 0 {
        seq![]
    } else {
        lines_branches(lines.drop_last(), tm) + line_branches(lines.last(), tm)
    }
}

/// The full enumeration of the listing text: each line trimmed and
/// parsed, blank lines dropped, tracked remote entries filtered, and the
/// listing order kept.
pub open spec fn spec_branches(listing: Seq<char>, tm: Seq<(Seq<char>, Seq<char>)>) -> Seq<
    BranchView,
> {
    lines_branches(split_lines_spec(listing), tm)
}

/// The views of the branches of `v`, in order.
pub open spec fn branch_views(v: Seq<Branch>) -> Seq<BranchView> {
    v.map_values(|b: Branch| b@)
}

/// Enumerates the branches of the listing text: one record per non-blank
/// line, in listing order, remote entries already tracked by a local
/// branch left out.
pub fn branches(listing: &str, tracking: &TrackingMap) -> (v: Vec<Branch>)
    ensures
        branch_views(v@) == spec_branches(listing@, tracking@),
        forall|i: int| 0 <= i < v@.len() ==> keep_branch(#[trigger] v@[i]@),
{
    let lines = split_lines(listing);
    let ghost lseq = lines.deep_view();
    let mut v: Vec<Branch> = Vec::new();
    let mut idx: usize = 0;
    proof {
        assert(lseq.take(0) =~= Seq::<Seq<char>>::empty());
        assert(branch_views(v@) =~= lines_branches(lseq.take(0), tracking@));
    }
    while idx < lines.len()
        invariant
            idx <= lines.len(),
            lseq == lines.deep_view(),
            lseq.len() == lines.len(),
            branch_views(v@) == lines_branches(lseq.take(idx as int), tracking@),
            forall|i: int| 0 <= i < v@.len() ==> keep_branch(#[trigger] v@[i]@),
        decreases lines.len() - idx,
    {
        let ghost pre = branch_views(v@);
        let t = trim(lines[idx].as_str());
        if t.unicode_len() > 0 {
            let b = parse_branch(String::from_str(t), tracking);
            if !b.is_remote || b.tracked_by.is_none() {
                v.push(b);
                proof {
                    assert(branch_views(v@) =~= pre.push(b@));
                    assert(pre.push(b@) =~= pre + seq![b@]);
                }
            }
        }
        proof {
            assert(lseq.take(idx + 1).drop_last() =~= lseq.take(idx as int));
            assert(lseq.take(idx + 1).last() == lseq[idx as int]);
            assert(pre + Seq::<BranchView>::empty() =~= pre);
        }
        idx += 1;
    }
    proof {
        assert(lseq.take(lseq.len() as int) =~= lseq);
    }
    v
}

/// A parsed name never carries leading or trailing whitespace.
pub proof fn lemma_parsed_name_trimmed(raw: Seq<char>, tm: Seq<(Seq<char>, Seq<char>)>)
    ensures
        ({
            let m = spec_parse_branch(raw, tm).name;
            m.len() > 0 ==> (!is_space_char(m[0]) && !is_space_char(
                m.last(),
            ))
        }),
{
    let u = drop_stars_spec(strip_remotes_spec(raw));
    lemma_trim_start_head(u);
    lemma_trim_end_props(trim_start_spec(u));
}

/// A parsed name never begins with the current marker `*` or the
/// namespace marker `remotes/`, provided stripping the line's own prefix
/// does not uncover another such marker (a line such as `* *x` or
/// `remotes/remotes/x` would).
pub proof fn lemma_parsed_name_unmarked(raw: Seq<char>, tm: Seq<(Seq<char>, Seq<char>)>)
    requires
        ({
            let t = trim_start_spec(drop_stars_spec(strip_remotes_spec(raw)));
            t.len() > 0 ==> (t[0] != '*' && !seq_starts_with(t, remotes_prefix()))
        }),
    ensures
        ({
            let m = spec_parse_branch(raw, tm).name;
            m.len() > 0 ==> (m[0] != '*' && !seq_starts_with(m, remotes_prefix()))
        }),
{
    let t = trim_start_spec(drop_stars_spec(strip_remotes_spec(raw)));
    let m = spec_parse_branch(raw, tm).name;
    lemma_trim_end_props(t);
    if m.len() > 0 {
        assert(m[0] == t[0]);
        if seq_starts_with(m, remotes_prefix()) {
            assert forall|i: int| 0 <= i < remotes_prefix().len() implies t.subrange(
                0,
                remotes_prefix().len() as int,
            )[i] == remotes_prefix()[i] by {
                assert(m.subrange(0, remotes_prefix().len() as int)[i] == m[i]);
                assert(m[i] == t[i]);
            }
            assert(t.subrange(0, remotes_prefix().len() as int) =~= remotes_prefix());
            assert(seq_starts_with(t, remotes_prefix()));
        }
    }
}

/// A record is never both the current branch and a remote entry: the
/// current marker and the remote namespace cannot both begin a line.
pub proof fn lemma_current_is_local(raw: Seq<char>, tm: Seq<(Seq<char>, Seq<char>)>)
    ensures
        !(spec_parse_branch(raw, tm).is_current && spec_parse_branch(raw, tm).is_remote),
{
    if raw.len() > 0 && raw[0] == '*' && seq_starts_with(raw, remotes_prefix()) {
        assert(raw.subrange(0, remotes_prefix().len() as int)[0] == raw[0]);
    }
}

/// Parsing is deterministic: one line and one tracking map give one
/// record, whatever the call that produced them.
pub proof fn lemma_parse_deterministic(
    raw1: Seq<char>,
    tm1: Seq<(Seq<char>, Seq<char>)>,
    raw2: Seq<char>,
    tm2: Seq<(Seq<char>, Seq<char>)>,
)
    requires
        raw1 == raw2,
        tm1 == tm2,
    ensures
        spec_parse_branch(raw1, tm1) == spec_parse_branch(raw2, tm2),
{
}

/// Every record that the lines contribute passes the filter.
proof fn lemma_lines_branches_keep(lines: Seq<Seq<char>>, tm: Seq<(Seq<char>, Seq<char>)>)
    ensures
        forall|i: int|
            0 <= i < lines_branches(lines, tm).len() ==> keep_branch(
                #[trigger] lines_branches(lines, tm)[i],
            ),
    decreases lines.len(),
{
    if lines.len() > 0 {
        lemma_lines_branches_keep(lines.drop_last(), tm);
        let a = lines_branches(lines.drop_last(), tm);
        let c = line_branches(lines.last(), tm);
        assert forall|i: int| 0 <= i < lines_branches(lines, tm).len() implies keep_branch(
            lines_branches(lines, tm)[i],
        ) by {
            if i < a.len() {
                assert(lines_branches(lines, tm)[i] == a[i]);
            } else {
                assert(lines_branches(lines, tm)[i] == c[i - a.len()]);
            }
        }
    }
}

/// An enumeration never surfaces a remote branch that a local branch
/// already tracks: every record is local or an untracked remote.
pub proof fn lemma_branches_untracked(listing: Seq<char>, tm: Seq<(Seq<char>, Seq<char>)>)
    ensures
        forall|i: int|
            0 <= i < spec_branches(listing, tm).len() ==> keep_branch(
                #[trigger] spec_branches(listing, tm)[i],
            ),
{
    lemma_lines_branches_keep(split_lines_spec(listing), tm);
}

/// Number of records marked current.
pub open spec fn count_current(bs: Seq<BranchView>) -> nat
    decreases bs.len(),
{
    if bs.len() == 0 {
        0
    } else if bs.last().is_current {
        (count_current(bs.drop_last()) + 1) as nat
    } else {
        count_current(bs.drop_last())
    }
}

/// The trimmed line carries the current-branch marker.
pub open spec fn starred_line(line: Seq<char>) -> bool {
    trim_spec(line).len() > 0 && trim_spec(line)[0] == '*'
}

/// Number of listing lines carrying the current-branch marker.
pub open spec fn count_starred(lines: Seq<Seq<char>>) -> nat
    decreases lines.len(),
{
    if lines.len() == 0 {
        0
    } else if starred_line(lines.last()) {
        (count_starred(lines.drop_last()) + 1) as nat
    } else {
        count_starred(lines.drop_last())
    }
}

/// The lines mark at least as many current branches as their records do.
proof fn lemma_count_lines(lines: Seq<Seq<char>>, tm: Seq<(Seq<char>, Seq<char>)>)
    ensures
        count_current(lines_branches(lines, tm)) <= count_starred(lines),
    decreases lines.len(),
{
    if lines.len() > 0 {
        lemma_count_lines(lines.drop_last(), tm);
        let a = lines_branches(lines.drop_last(), tm);
        let c = line_branches(lines.last(), tm);
        if c.len() == 0 {
            assert(a + c =~= a);
        } else {
            assert((a + c).drop_last() =~= a);
            assert((a + c).last() == c[0]);
        }
    }
}

/// At most one branch of an enumeration is marked current, provided at
/// most one listing line carries the current marker (as any healthy
/// listing does).
pub proof fn lemma_at_most_one_current(listing: Seq<char>, tm: Seq<(Seq<char>, Seq<char>)>)
    requires
        count_starred(split_lines_spec(listing)) <= 1,
    ensures
        count_current(spec_branches(listing, tm)) <= 1,
{
    lemma_count_lines(split_lines_spec(listing), tm);
}

/// The first record of `bs` named `name`, if any.
pub open spec fn spec_find(bs: Seq<BranchView>, name: Seq<char>) -> Option<BranchView>
    decreases bs.len(),
{
    if bs.len() == 0 {
        None
    } else if bs.first().name == name {
        Some(bs.first())
    } else {
        spec_find(bs.drop_first(), name)
    }
}

/// Resolves a chosen name back to its record: the first branch of the
/// list carrying exactly that name, or nothing when none does.
pub fn find_branch(branch_list: &Vec<Branch>, name: &String) -> (r: Option<Branch>)
    ensures
        match r {
            Some(b) => spec_find(branch_views(branch_list@), name@) == Some(b@),
            None => spec_find(branch_views(branch_list@), name@) is None,
        },
{
    let ghost bs = branch_views(branch_list@);
    let mut i: usize = 0;
    proof {
        assert(bs.skip(0) =~= bs);
    }
    while i < branch_list.len()
        invariant
            i <= branch_list.len(),
            bs == branch_views(branch_list@),
            bs.len() == branch_list.len(),
            spec_find(bs, name@) == spec_find(bs.skip(i as int), name@),
        decreases branch_list.len() - i,
    {
        let b = &branch_list[i];
        if b.name == *name {
            proof {
                assert(bs.skip(i as int).first() == bs[i as int]);
            }
            return Some(b.duplicate());
        }
        proof {
            assert(bs.skip(i as int).first() == bs[i as int]);
            assert(bs.skip(i as int).drop_first() =~= bs.skip(i + 1));
        }
        i += 1;
    }
    proof {
        assert(bs.skip(bs.len() as int) =~= Seq::<BranchView>::empty());
    }
    None
}

} // verus!
