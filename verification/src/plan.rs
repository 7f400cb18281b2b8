//! The extraction engine's decisions: for each entry, the lines to report
//! and the filesystem steps to take, in the order in which they happen.

use vstd::prelude::*;
use vstd::string::*;
use crate::entry::{entry_path, is_directory, Entry, EntryView};
use crate::path::{is_plainly_unsafe, lemma_unsafe_name_is_rejected};
use crate::text::{decimal, lemma_numeral_then_space, push_decimal};

verus! {

/// The kind of host that the steps are planned for.
#[derive(Clone, Copy, PartialEq, Eq, Structural, Debug)]
pub enum Host {
    /// A host with Unix permission bits.
    Posix,
    /// Any other host: permissions are left alone.
    Other,
}

/// One step of an extraction.
#[derive(Clone, Debug, PartialEq, Eq)]
pub enum Action {
    /// Write the line, followed by a newline, to standard output.
    Print(String),
    /// Make sure that the directory exists, creating missing ancestors.
    CreateDirAll(String),
    /// Make sure that the parent directory of the path exists, creating it
    /// and its missing ancestors if and only if it does not exist yet.
    EnsureParent(String),
    /// Create or truncate the file at `path` and copy into it the contents
    /// of the entry with the given index.
    WriteFile { path: String, index: usize },
    /// Set the permission bits of the path to exactly `mode`.
    SetMode { path: String, mode: u32 },
}

/// The mathematical value of an [`Action`].
pub enum ActionView {
    Print(Seq<char>),
    CreateDirAll(Seq<char>),
    EnsureParent(Seq<char>),
    WriteFile { path: Seq<char>, index: nat },
    SetMode { path: Seq<char>, mode: u32 },
}

impl View for Action {
    type V = ActionView;

    open spec fn view(&self) -> ActionView {
        match self {
            Action::Print(s) => ActionView::Print(s@),
            Action::CreateDirAll(p) => ActionView::CreateDirAll(p@),
            Action::EnsureParent(p) => ActionView::EnsureParent(p@),
            Action::WriteFile { path, index } => ActionView::WriteFile {
                path: path@,
                index: *index as nat,
            },
            Action::SetMode { path, mode } => ActionView::SetMode { path: path@, mode: *mode },
        }
    }
}

/// The steps held by a vector of actions.
pub open spec fn actions_view(v: Seq<Action>) -> Seq<ActionView> {
    Seq::new(v.len(), |k: int| v[k]@)
}

/// `File <i> comment: <comment>`
pub open spec fn comment_line(i: nat, comment: Seq<char>) -> Seq<char> {
    "File "@ + decimal(i) + " comment: "@ + comment
}

/// `File <i> extracted to "<path>"`
pub open spec fn directory_line(i: nat, path: Seq<char>) -> Seq<char> {
    "File "@ + decimal(i) + " extracted to \""@ + path + "\""@
}

/// `File <i> extracted to "<path>" (<size> bytes)`
pub open spec fn file_line(i: nat, path: Seq<char>, size: nat) -> Seq<char> {
    "File "@ + decimal(i) + " extracted to \""@ + path + "\" ("@ + decimal(size) + " bytes)"@
}

/// The report of the entry's comment: one line, unless the comment is empty.
pub open spec fn comment_steps(i: nat, e: EntryView) -> Seq<ActionView> {
    if e.comment.len() == 0 {
        Seq::empty()
    } else {
        seq![ActionView::Print(comment_line(i, e.comment))]
    }
}

/// The steps that bring the entry into being at `path`.
pub open spec fn materialize_steps(i: nat, e: EntryView, path: Seq<char>) -> Seq<ActionView> {
    if is_directory(e) {
        seq![ActionView::Print(directory_line(i, path)), ActionView::CreateDirAll(path)]
    } else {
        seq![
            ActionView::Print(file_line(i, path, e.size as nat)),
            ActionView::EnsureParent(path),
            ActionView::WriteFile { path: path, index: i },
        ]
    }
}

/// The permission step: taken on a Posix host for an entry with a mode.
pub open spec fn mode_steps(e: EntryView, path: Seq<char>, host: Host) -> Seq<ActionView> {
    match e.unix_mode {
        Some(mode) => if host == Host::Posix {
            seq![ActionView::SetMode { path: path, mode: mode }]
        } else {
            Seq::empty()
        },
        None => Seq::empty(),
    }
}

/// All steps for the entry with index `i`, in order: none for an entry that
/// is skipped; otherwise the comment, the entry itself, its permissions.
pub open spec fn entry_actions(i: nat, e: EntryView, host: Host) -> Seq<ActionView> {
    match entry_path(e) {
        None => Seq::empty(),
        Some(path) => comment_steps(i, e) + materialize_steps(i, e, path) + mode_steps(
            e,
            path,
            host,
        ),
    }
}

/// All steps for the entries, in the order of the entries.
pub open spec fn archive_actions(entries: Seq<EntryView>, host: Host) -> Seq<ActionView>
    decreases entries.len(),
{
    if entries.len() == 0 {
        Seq::empty()
    } else {
        archive_actions(entries.drop_last(), host) + entry_actions(
            (entries.len() - 1) as nat,
            entries.last(),
            host,
        )
    }
}

/// Starts a report line: `File <i>`.
fn line_start(index: usize) -> (s: String)
    ensures
        s@ == "File "@ + decimal(index as nat),
{
    let mut s: String = String::new();
    s.append("File ");
    push_decimal(&mut s, index as u64);
    proof {
        assert(s@ =~= "File "@ + decimal(index as nat));
    }
    s
}

/// The line that reports an entry's comment.
pub fn format_comment_line(index: usize, comment: &str) -> (s: String)
    ensures
        s@ == comment_line(index as nat, comment@),
{
    let mut s: String = line_start(index);
    s.append(" comment: ");
    s.append(comment);
    s
}

/// The line that reports a directory entry.
pub fn format_directory_line(index: usize, path: &str) -> (s: String)
    ensures
        s@ == directory_line(index as nat, path@),
{
    let mut s: String = line_start(index);
    s.append(" extracted to \"");
    s.append(path);
    s.append("\"");
    s
}

/// The line that reports a file entry.
pub fn format_file_line(index: usize, path: &str, size: u64) -> (s: String)
    ensures
        s@ == file_line(index as nat, path@, size as nat),
{
    let mut s: String = line_start(index);
    s.append(" extracted to \"");
    s.append(path);
    s.append("\" (");
    push_decimal(&mut s, size);
    s.append(" bytes)");
    s
}

/// Plans the extraction of one entry: the lines and filesystem steps that
/// the entry calls for, in order. An entry without a resolved path gets none.
pub fn plan_entry(index: usize, entry: &Entry, host: Host) -> (plan: Vec<Action>)
    ensures
        actions_view(plan@) == entry_actions(index as nat, entry@, host),
{
    let mut plan: Vec<Action> = Vec::new();
    let path: String = match entry.resolve() {
        Some(p) => p,
        None => {
            proof {
                assert(actions_view(plan@) =~= entry_actions(index as nat, entry@, host));
            }
            return plan;
        },
    };
    if entry.comment.as_str().unicode_len() > 0 {
        plan.push(Action::Print(format_comment_line(index, entry.comment.as_str())));
    }
    proof {
        assert(actions_view(plan@) =~= comment_steps(index as nat, entry@));
    }
    let ghost before = actions_view(plan@);
    if entry.is_dir() {
        plan.push(Action::Print(format_directory_line(index, path.as_str())));
        plan.push(Action::CreateDirAll(path.clone()));
    } else {
        plan.push(Action::Print(format_file_line(index, path.as_str(), entry.size)));
        plan.push(Action::EnsureParent(path.clone()));
        plan.push(Action::WriteFile { path: path.clone(), index: index });
    }
    proof {
        assert(actions_view(plan@) =~= before + materialize_steps(index as nat, entry@, path@));
    }
    let ghost middle = actions_view(plan@);
    match entry.unix_mode {
        Some(mode) => {
            if host == Host::Posix {
                plan.push(Action::SetMode { path: path, mode: mode });
            }
        },
        None => {},
    }
    proof {
        assert(actions_view(plan@) =~= middle + mode_steps(entry@, path@, host));
    }
    plan
}

/// The values of the entries in a vector.
pub open spec fn entries_view(v: Seq<Entry>) -> Seq<EntryView> {
    Seq::new(v.len(), |k: int| v[k]@)
}

/// Plans the extraction of the entries, in order: for each entry the steps
/// of [`plan_entry`] under the entry's position in the vector.
pub fn plan_archive(entries: &Vec<Entry>, host: Host) -> (plan: Vec<Action>)
    ensures
        actions_view(plan@) == archive_actions(entries_view(entries@), host),
{
    let mut plan: Vec<Action> = Vec::new();
    let mut i: usize = 0;
    proof {
        assert(entries_view(entries@).take(0) =~= Seq::<EntryView>::empty());
        assert(actions_view(plan@) =~= Seq::empty());
    }
    while i < entries.len()
        invariant
            i <= entries.len(),
            actions_view(plan@) == archive_actions(
                entries_view(entries@).take(i as int),
                host,
            ),
        decreases entries.len() - i,
    {
        let mut steps: Vec<Action> = plan_entry(i, &entries[i], host);
        let ghost before = actions_view(plan@);
        let ghost added = actions_view(steps@);
        plan.append(&mut steps);
        proof {
            let all = entries_view(entries@);
            assert(all.take(i + 1).drop_last() =~= all.take(i as int));
            assert(all.take(i + 1).last() == entries@[i as int]@);
            assert(actions_view(plan@) =~= before + added);
        }
        i = i + 1;
    }
    proof {
        assert(entries_view(entries@).take(i as int) =~= entries_view(entries@));
    }
    plan
}

/// What every comment line of the entry with index `i` begins with.
pub open spec fn comment_prefix(i: nat) -> Seq<char> {
    "File "@ + decimal(i) + " comment: "@
}

/// Whether a step writes a comment line of the entry with index `i`.
pub open spec fn is_comment_report(a: ActionView, i: nat) -> bool {
    match a {
        ActionView::Print(line) => comment_prefix(i).is_prefix_of(line),
        _ => false,
    }
}

/// Where the steps of the entry with index `j` begin in the plan of the
/// whole archive.
pub open spec fn entry_offset(entries: Seq<EntryView>, host: Host, j: int) -> int {
    archive_actions(entries.take(j), host).len() as int
}

/// An entry that is skipped gets no step at all: nothing is written and
/// nothing is created for it.
pub proof fn lemma_skipped_entry_has_no_steps(i: nat, e: EntryView, host: Host)
    requires
        entry_path(e) is None,
    ensures
        entry_actions(i, e, host) == Seq::<ActionView>::empty(),
{
}

/// An entry whose name is absolute, holds a NUL, or begins by climbing to
/// the parent directory gets no step at all, and so does one that the
/// archive reader gave no enclosed name.
pub proof fn lemma_unsafe_entry_has_no_steps(i: nat, e: EntryView, host: Host)
    requires
        match e.enclosed {
            None => true,
            Some(n) => is_plainly_unsafe(n),
        },
    ensures
        entry_actions(i, e, host) == Seq::<ActionView>::empty(),
{
    match e.enclosed {
        None => {},
        Some(n) => {
            lemma_unsafe_name_is_rejected(n);
        },
    }
}

/// No extraction line is a comment line.
proof fn lemma_extraction_line_is_no_comment_line(i: nat, path: Seq<char>, size: nat)
    ensures
        !comment_prefix(i).is_prefix_of(directory_line(i, path)),
        !comment_prefix(i).is_prefix_of(file_line(i, path, size)),
{
    reveal_strlit(" comment: ");
    reveal_strlit(" extracted to \"");
    let head = "File "@ + decimal(i);
    let at = head.len() as int + 1;
    let c = comment_prefix(i);
    let d = directory_line(i, path);
    let f = file_line(i, path, size);
    assert(c[at] == 'c');
    assert(d[at] == 'e');
    assert(f[at] == 'e');
    if c.is_prefix_of(d) {
        assert(d.subrange(0, c.len() as int)[at] == c[at]);
    }
    if c.is_prefix_of(f) {
        assert(f.subrange(0, c.len() as int)[at] == c[at]);
    }
}

/// A comment line is written exactly for an entry that is extracted and has
/// a comment: it is then the entry's first step and holds the comment; no
/// other step of the entry is a comment line.
pub proof fn lemma_comment_reported(i: nat, e: EntryView, host: Host)
    ensures
        entry_path(e) is Some && e.comment.len() > 0 ==> entry_actions(i, e, host).len() > 0
            && entry_actions(i, e, host)[0] == ActionView::Print(comment_line(i, e.comment)),
        forall|k: int|
            0 <= k < entry_actions(i, e, host).len() && is_comment_report(
                #[trigger] entry_actions(i, e, host)[k],
                i,
            ) ==> k == 0 && e.comment.len() > 0,
{
    match entry_path(e) {
        None => {},
        Some(path) => {
            lemma_extraction_line_is_no_comment_line(i, path, e.size as nat);
        },
    }
}

/// A comment line names its entry: among the steps of the entry with index
/// `l`, a comment line of the entry with index `i` is found only where `i`
/// is `l`.
pub proof fn lemma_comment_line_names_its_entry(i: nat, l: nat, e: EntryView, host: Host, k: int)
    requires
        0 <= k < entry_actions(l, e, host).len(),
        is_comment_report(entry_actions(l, e, host)[k], i),
    ensures
        i == l,
{
    reveal_strlit(" comment: ");
    reveal_strlit(" extracted to \"");
    let line = entry_actions(l, e, host)[k]->Print_0;
    let path = entry_path(e).unwrap();
    let head = "File "@;
    let want = comment_prefix(i);
    let so_far = head + decimal(i) + seq![' '];
    assert(so_far =~= want.subrange(0, so_far.len() as int));
    assert(want =~= line.subrange(0, want.len() as int));
    assert(so_far =~= line.subrange(0, so_far.len() as int));
    let tail: Seq<char> = if line == comment_line(l, e.comment) {
        "comment: "@ + e.comment
    } else if line == directory_line(l, path) {
        "extracted to \""@ + path + "\""@
    } else {
        "extracted to \""@ + path + "\" ("@ + decimal(e.size as nat) + " bytes)"@
    };
    reveal_strlit("comment: ");
    reveal_strlit("extracted to \"");
    assert(" comment: "@ =~= seq![' '] + "comment: "@);
    assert(" extracted to \""@ =~= seq![' '] + "extracted to \""@);
    assert(line =~= head + (decimal(l) + seq![' '] + tail));
    let left = decimal(i) + seq![' '];
    let right = decimal(l) + seq![' '] + tail;
    assert(so_far =~= head + left);
    assert(left =~= right.subrange(0, left.len() as int)) by {
        assert forall|n: int| 0 <= n < left.len() implies left[n] == right[n] by {
            assert(so_far[head.len() + n] == left[n]);
            assert(line.subrange(0, so_far.len() as int)[head.len() + n] == line[head.len() + n]);
            assert(line[head.len() + n] == right[n]);
        }
    }
    lemma_numeral_then_space(i, l, tail);
}

/// A file is never written before its parent directory has been seen to:
/// the step before each write makes sure of the parent of the same path.
pub proof fn lemma_parent_precedes_write(i: nat, e: EntryView, host: Host, k: int)
    requires
        0 <= k < entry_actions(i, e, host).len(),
        entry_actions(i, e, host)[k] is WriteFile,
    ensures
        k > 0,
        entry_path(e) is Some,
        !is_directory(e),
        entry_actions(i, e, host)[k] == (ActionView::WriteFile {
            path: entry_path(e).unwrap(),
            index: i,
        }),
        entry_actions(i, e, host)[k - 1] == ActionView::EnsureParent(entry_path(e).unwrap()),
{
}

/// On a Posix host an extracted entry with a mode has that exact mode set
/// on its path as its last step, after the entry was created, and in no
/// other step. Without a mode, or on another host, no step sets a mode.
pub proof fn lemma_mode_is_set_last(i: nat, e: EntryView, host: Host)
    requires
        entry_path(e) is Some,
    ensures
        e.unix_mode is Some && host == Host::Posix ==> entry_actions(i, e, host).last() == (
        ActionView::SetMode { path: entry_path(e).unwrap(), mode: e.unix_mode.unwrap() }),
        forall|k: int|
            0 <= k < entry_actions(i, e, host).len() && (#[trigger] entry_actions(
                i,
                e,
                host,
            )[k]) is SetMode ==> k == entry_actions(i, e, host).len() - 1 && e.unix_mode is Some
                && host == Host::Posix,
{
}

/// The plan of the first `j` entries is the beginning of the plan of all.
pub proof fn lemma_plan_grows(entries: Seq<EntryView>, host: Host, j: int)
    requires
        0 <= j <= entries.len(),
    ensures
        archive_actions(entries.take(j), host).is_prefix_of(archive_actions(entries, host)),
    decreases entries.len() - j,
{
    if j == entries.len() {
        assert(entries.take(j) =~= entries);
    } else {
        lemma_plan_grows(entries.drop_last(), host, j);
        assert(entries.drop_last().take(j) =~= entries.take(j));
        let a = archive_actions(entries.take(j), host);
        let b = archive_actions(entries.drop_last(), host);
        let c = archive_actions(entries, host);
        assert(c.subrange(0, a.len() as int) =~= b.subrange(0, a.len() as int));
    }
}

/// The plan of the archive holds the steps of each entry, unbroken and
/// under the entry's index, and the steps of an earlier entry end before
/// those of a later one begin.
pub proof fn lemma_entry_steps_in_plan(entries: Seq<EntryView>, host: Host, j: int, k: int)
    requires
        0 <= j < entries.len(),
        0 <= k < entry_actions(j as nat, entries[j], host).len(),
    ensures
        0 <= entry_offset(entries, host, j) + k < entry_offset(entries, host, j + 1),
        entry_offset(entries, host, j + 1) <= archive_actions(entries, host).len(),
        archive_actions(entries, host)[entry_offset(entries, host, j) + k] == entry_actions(
            j as nat,
            entries[j],
            host,
        )[k],
{
    let upto = entries.take(j + 1);
    assert(upto.drop_last() =~= entries.take(j));
    assert(upto.last() == entries[j]);
    lemma_plan_grows(entries, host, j + 1);
    let a = archive_actions(upto, host);
    let all = archive_actions(entries, host);
    assert(all.subrange(0, a.len() as int)[entry_offset(entries, host, j) + k] == a[entry_offset(
        entries,
        host,
        j,
    ) + k]);
}

/// The steps of the entries begin in the order of the entries.
pub proof fn lemma_offsets_ascend(entries: Seq<EntryView>, host: Host, i: int, j: int)
    requires
        0 <= i <= j <= entries.len(),
    ensures
        entry_offset(entries, host, i) <= entry_offset(entries, host, j),
{
    lemma_plan_grows(entries.take(j), host, i);
    assert(entries.take(j).take(i) =~= entries.take(i));
}

/// Every step of an archive's plan is a step of one of its entries: the
/// lemma gives the entry and the step's position among the entry's steps.
pub proof fn lemma_step_belongs_to_entry(entries: Seq<EntryView>, host: Host, m: int) -> (r: (
    int,
    int,
))
    requires
        0 <= m < archive_actions(entries, host).len(),
    ensures
        0 <= r.0 < entries.len(),
        0 <= r.1 < entry_actions(r.0 as nat, entries[r.0], host).len(),
        m == entry_offset(entries, host, r.0) + r.1,
        archive_actions(entries, host)[m] == entry_actions(r.0 as nat, entries[r.0], host)[r.1],
    decreases entries.len(),
{
    let front = entries.drop_last();
    let before = archive_actions(front, host).len() as int;
    if m >= before {
        let l = entries.len() - 1;
        assert(entries.take(l) =~= front);
        (l, m - before)
    } else {
        let r = lemma_step_belongs_to_entry(front, host, m);
        assert(front.take(r.0) =~= entries.take(r.0));
        r
    }
}

/// Comment reporting: the plan of an archive holds a comment line of the
/// entry with index `i` exactly when that entry is extracted and its
/// comment is not empty. The line then holds the comment, is the first of
/// the entry's steps and stands directly before the entry's extraction
/// line, and no other step is a comment line of that entry.
pub proof fn lemma_comments_in_plan(entries: Seq<EntryView>, host: Host, i: int)
    requires
        0 <= i < entries.len(),
    ensures
        entry_path(entries[i]) is Some && entries[i].comment.len() > 0 ==> {
            &&& 0 <= entry_offset(entries, host, i)
            &&& entry_offset(entries, host, i) + 1 < archive_actions(entries, host).len()
            &&& archive_actions(entries, host)[entry_offset(entries, host, i)]
                == ActionView::Print(comment_line(i as nat, entries[i].comment))
            &&& archive_actions(entries, host)[entry_offset(entries, host, i) + 1]
                == ActionView::Print(
                if is_directory(entries[i]) {
                    directory_line(i as nat, entry_path(entries[i]).unwrap())
                } else {
                    file_line(
                        i as nat,
                        entry_path(entries[i]).unwrap(),
                        entries[i].size as nat,
                    )
                },
            )
        },
        forall|m: int|
            0 <= m < archive_actions(entries, host).len() && is_comment_report(
                #[trigger] archive_actions(entries, host)[m],
                i as nat,
            ) ==> {
                &&& m == entry_offset(entries, host, i)
                &&& entry_path(entries[i]) is Some
                &&& entries[i].comment.len() > 0
            },
{
    let e = entries[i];
    lemma_comment_reported(i as nat, e, host);
    if entry_path(e) is Some && e.comment.len() > 0 {
        lemma_entry_steps_in_plan(entries, host, i, 0);
        lemma_entry_steps_in_plan(entries, host, i, 1);
    }
    assert forall|m: int|
        0 <= m < archive_actions(entries, host).len() && is_comment_report(
            #[trigger] archive_actions(entries, host)[m],
            i as nat,
        ) implies m == entry_offset(entries, host, i) && entry_path(e) is Some && e.comment.len()
        > 0 by {
        let (l, k) = lemma_step_belongs_to_entry(entries, host, m);
        lemma_comment_line_names_its_entry(i as nat, l as nat, entries[l], host, k);
    }
}

/// Every entry that is extracted and is no directory has its contents
/// written to its resolved path: the plan of the archive holds that step.
pub proof fn lemma_every_file_is_written(entries: Seq<EntryView>, host: Host, j: int)
    requires
        0 <= j < entries.len(),
        entry_path(entries[j]) is Some,
        !is_directory(entries[j]),
    ensures
        archive_actions(entries, host).contains(
            ActionView::WriteFile { path: entry_path(entries[j]).unwrap(), index: j as nat },
        ),
{
    let e = entries[j];
    let k = comment_steps(j as nat, e).len() as int + 2;
    lemma_entry_steps_in_plan(entries, host, j, k);
}

/// Of two extracted files, the one that comes later in the archive is
/// written later: where both resolve to one path, the later contents stay.
pub proof fn lemma_later_entry_is_written_later(
    entries: Seq<EntryView>,
    host: Host,
    i: int,
    j: int,
)
    requires
        0 <= i < j < entries.len(),
        entry_path(entries[i]) is Some,
        entry_path(entries[j]) is Some,
        !is_directory(entries[i]),
        !is_directory(entries[j]),
    ensures
        exists|a: int, b: int|
            0 <= a < b < archive_actions(entries, host).len() && #[trigger] archive_actions(
                entries,
                host,
            )[a] == (ActionView::WriteFile {
                path: entry_path(entries[i]).unwrap(),
                index: i as nat,
            }) && #[trigger] archive_actions(entries, host)[b] == (ActionView::WriteFile {
                path: entry_path(entries[j]).unwrap(),
                index: j as nat,
            }),
{
    let ki = comment_steps(i as nat, entries[i]).len() as int + 2;
    let kj = comment_steps(j as nat, entries[j]).len() as int + 2;
    lemma_entry_steps_in_plan(entries, host, i, ki);
    lemma_entry_steps_in_plan(entries, host, j, kj);
    lemma_offsets_ascend(entries, host, i + 1, j);
    let a = entry_offset(entries, host, i) + ki;
    let b = entry_offset(entries, host, j) + kj;
    assert(a < b);
}

} // verus!
