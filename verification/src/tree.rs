//! A model of the directory tree below the working directory, and of what
//! the steps of an extraction do to it. Nothing here runs: the model says
//! what carrying out a plan amounts to, and the laws below are proved of it.

use vstd::prelude::*;
use crate::entry::{entry_path, is_directory, EntryView};
use crate::path::{components, lemma_components_are_plain, lemma_join_resolves_to_itself, resolved};
use crate::plan::{
    archive_actions, comment_steps, entry_actions, entry_offset, lemma_entry_steps_in_plan,
    lemma_mode_is_set_last, lemma_offsets_ascend, lemma_step_belongs_to_entry, ActionView, Host,
};

verus! {

/// What stands at a place in the tree.
pub enum Node {
    Dir,
    File(Seq<u8>),
}

/// The tree below the working directory: what stands at each place, and the
/// permission bits that were set. A place is named by the components that
/// lead to it; the working directory itself has none and is always there.
pub struct Tree {
    pub nodes: Map<Seq<Seq<char>>, Node>,
    pub modes: Map<Seq<Seq<char>>, u32>,
}

/// Whether `a` is a proper ancestor of `q`, other than the working
/// directory.
pub open spec fn ancestor_of(a: Seq<Seq<char>>, q: Seq<Seq<char>>) -> bool {
    0 < a.len() < q.len() && a == q.take(a.len() as int)
}

/// Whether `a` is `k` or one of its ancestors, other than the working
/// directory.
pub open spec fn on_path(a: Seq<Seq<char>>, k: Seq<Seq<char>>) -> bool {
    a.len() > 0 && (a == k || ancestor_of(a, k))
}

/// Whether anything stands at the place.
pub open spec fn exists_at(t: Tree, k: Seq<Seq<char>>) -> bool {
    k.len() == 0 || t.nodes.contains_key(k)
}

/// Whether a directory stands at the place.
pub open spec fn is_dir_at(t: Tree, k: Seq<Seq<char>>) -> bool {
    k.len() == 0 || (t.nodes.contains_key(k) && t.nodes[k] is Dir)
}

/// Whether a file stands at the place.
pub open spec fn is_file_at(t: Tree, k: Seq<Seq<char>>) -> bool {
    k.len() > 0 && t.nodes.contains_key(k) && t.nodes[k] is File
}

/// A tree is closed when every ancestor of everything in it is a directory.
pub open spec fn closed(t: Tree) -> bool {
    &&& !t.nodes.contains_key(Seq::empty())
    &&& forall|a: Seq<Seq<char>>, q: Seq<Seq<char>>|
        t.nodes.contains_key(q) && #[trigger] ancestor_of(a, q) ==> is_dir_at(t, a)
}

/// The place that a path names: its components.
pub open spec fn place(path: Seq<char>) -> Seq<Seq<char>> {
    match components(path) {
        Some(parts) => parts,
        None => Seq::empty(),
    }
}

/// Creating the directory at `k` with all its missing ancestors. Fails where
/// a file stands on the way.
pub open spec fn make_dirs(t: Tree, k: Seq<Seq<char>>) -> Option<Tree> {
    if exists|a: Seq<Seq<char>>| #[trigger] on_path(a, k) && is_file_at(t, a) {
        None
    } else {
        Some(
            Tree {
                nodes: Map::new(
                    |q: Seq<Seq<char>>| t.nodes.contains_key(q) || on_path(q, k),
                    |q: Seq<Seq<char>>|
                        if on_path(q, k) {
                            Node::Dir
                        } else {
                            t.nodes[q]
                        },
                ),
                modes: t.modes,
            },
        )
    }
}

/// What one step does to the tree, `None` where the step fails. `data`
/// holds the contents of the archive's entries, by index.
pub open spec fn apply(t: Tree, a: ActionView, data: Seq<Seq<u8>>) -> Option<Tree> {
    match a {
        ActionView::Print(_) => Some(t),
        ActionView::CreateDirAll(path) => make_dirs(t, place(path)),
        ActionView::EnsureParent(path) => {
            let k = place(path);
            if k.len() == 0 || exists_at(t, k.drop_last()) {
                Some(t)
            } else {
                make_dirs(t, k.drop_last())
            }
        },
        ActionView::WriteFile { path, index } => {
            let k = place(path);
            if k.len() == 0 || index >= data.len() || !is_dir_at(t, k.drop_last()) || is_dir_at(
                t,
                k,
            ) {
                None
            } else {
                Some(Tree { nodes: t.nodes.insert(k, Node::File(data[index as int])), modes: t.modes })
            }
        },
        ActionView::SetMode { path, mode } => {
            let k = place(path);
            if !exists_at(t, k) {
                None
            } else {
                Some(Tree { nodes: t.nodes, modes: t.modes.insert(k, mode) })
            }
        },
    }
}

/// What the steps do to the tree, one after the other; `None` as soon as
/// one fails.
pub open spec fn run(t: Tree, steps: Seq<ActionView>, data: Seq<Seq<u8>>) -> Option<Tree>
    decreases steps.len(),
{
    if steps.len() == 0 {
        Some(t)
    } else {
        match run(t, steps.drop_last(), data) {
            Some(mid) => apply(mid, steps.last(), data),
            None => None,
        }
    }
}

/// An ancestor of an ancestor is an ancestor.
pub proof fn lemma_ancestor_of_ancestor(a: Seq<Seq<char>>, q: Seq<Seq<char>>, k: Seq<Seq<char>>)
    requires
        ancestor_of(a, q),
        on_path(q, k),
    ensures
        ancestor_of(a, k),
{
    if q != k {
        assert(k.take(q.len() as int).take(a.len() as int) =~= k.take(a.len() as int));
    }
}

/// Creating directories keeps a closed tree closed.
pub proof fn lemma_make_dirs_keeps_closed(t: Tree, k: Seq<Seq<char>>)
    requires
        closed(t),
        make_dirs(t, k) is Some,
    ensures
        closed(make_dirs(t, k).unwrap()),
{
    let t2 = make_dirs(t, k).unwrap();
    assert forall|a: Seq<Seq<char>>, q: Seq<Seq<char>>|
        t2.nodes.contains_key(q) && #[trigger] ancestor_of(a, q) implies is_dir_at(t2, a) by {
        if on_path(q, k) {
            lemma_ancestor_of_ancestor(a, q, k);
            assert(on_path(a, k));
        } else {
            assert(is_dir_at(t, a));
        }
    }
}

/// Every step that succeeds keeps a closed tree closed: whatever stands in
/// the tree afterwards has directories for all its ancestors.
pub proof fn lemma_step_keeps_closed(t: Tree, a: ActionView, data: Seq<Seq<u8>>)
    requires
        closed(t),
        apply(t, a, data) is Some,
    ensures
        closed(apply(t, a, data).unwrap()),
{
    let t2 = apply(t, a, data).unwrap();
    match a {
        ActionView::Print(_) => {},
        ActionView::CreateDirAll(path) => {
            lemma_make_dirs_keeps_closed(t, place(path));
        },
        ActionView::EnsureParent(path) => {
            let k = place(path);
            if !(k.len() == 0 || exists_at(t, k.drop_last())) {
                lemma_make_dirs_keeps_closed(t, k.drop_last());
            }
        },
        ActionView::WriteFile { path, index } => {
            let k = place(path);
            let parent = k.drop_last();
            assert forall|b: Seq<Seq<char>>, q: Seq<Seq<char>>|
                t2.nodes.contains_key(q) && #[trigger] ancestor_of(b, q) implies is_dir_at(
                t2,
                b,
            ) by {
                if q == k {
                    if b.len() == parent.len() {
                        assert(b =~= parent);
                    } else {
                        assert(parent.take(b.len() as int) =~= k.take(b.len() as int));
                        assert(ancestor_of(b, parent));
                    }
                    assert(is_dir_at(t, b));
                } else {
                    assert(is_dir_at(t, b));
                }
            }
        },
        ActionView::SetMode { path, mode } => {
            assert forall|b: Seq<Seq<char>>, q: Seq<Seq<char>>|
                t2.nodes.contains_key(q) && #[trigger] ancestor_of(b, q) implies is_dir_at(
                t2,
                b,
            ) by {
                assert(is_dir_at(t, b));
            }
        },
    }
}

/// Directory closure: a run that succeeds on a closed tree leaves a closed
/// tree, so every ancestor of every extracted file is a directory.
pub proof fn lemma_run_keeps_closed(t: Tree, steps: Seq<ActionView>, data: Seq<Seq<u8>>)
    requires
        closed(t),
        run(t, steps, data) is Some,
    ensures
        closed(run(t, steps, data).unwrap()),
    decreases steps.len(),
{
    if steps.len() > 0 {
        lemma_run_keeps_closed(t, steps.drop_last(), data);
        lemma_step_keeps_closed(run(t, steps.drop_last(), data).unwrap(), steps.last(), data);
    }
}

/// Running two lists of steps in a row is running the one and then the
/// other.
pub proof fn lemma_run_in_a_row(
    t: Tree,
    first: Seq<ActionView>,
    second: Seq<ActionView>,
    data: Seq<Seq<u8>>,
)
    ensures
        run(t, first + second, data) == match run(t, first, data) {
            Some(mid) => run(mid, second, data),
            None => None,
        },
    decreases second.len(),
{
    if second.len() == 0 {
        assert(first + second =~= first);
    } else {
        lemma_run_in_a_row(t, first, second.drop_last(), data);
        assert((first + second).drop_last() =~= first + second.drop_last());
    }
}

/// Whether the step writes the file at the place.
pub open spec fn writes_to(a: ActionView, c: Seq<Seq<char>>) -> bool {
    match a {
        ActionView::WriteFile { path, index } => place(path) == c,
        _ => false,
    }
}

/// A file stays as it is through every step that succeeds and does not
/// write to its place.
pub proof fn lemma_step_keeps_file(
    t: Tree,
    a: ActionView,
    data: Seq<Seq<u8>>,
    c: Seq<Seq<char>>,
    x: Seq<u8>,
)
    requires
        c.len() > 0,
        t.nodes.contains_key(c),
        t.nodes[c] == Node::File(x),
        apply(t, a, data) is Some,
        !writes_to(a, c),
    ensures
        apply(t, a, data).unwrap().nodes.contains_key(c),
        apply(t, a, data).unwrap().nodes[c] == Node::File(x),
{
    assert(is_file_at(t, c));
    match a {
        ActionView::CreateDirAll(path) => {
            assert(!on_path(c, place(path)));
        },
        ActionView::EnsureParent(path) => {
            let k = place(path);
            if !(k.len() == 0 || exists_at(t, k.drop_last())) {
                assert(!on_path(c, k.drop_last()));
            }
        },
        _ => {},
    }
}

/// After a run that succeeds, the place that a step wrote to holds what that
/// step wrote, unless a later step wrote there too.
pub proof fn lemma_last_write_stays(
    t: Tree,
    steps: Seq<ActionView>,
    data: Seq<Seq<u8>>,
    n: int,
    c: Seq<Seq<char>>,
    index: nat,
)
    requires
        0 <= n < steps.len(),
        steps[n] is WriteFile,
        steps[n]->WriteFile_index == index,
        writes_to(steps[n], c),
        forall|m: int| n < m < steps.len() ==> !writes_to(#[trigger] steps[m], c),
        run(t, steps, data) is Some,
    ensures
        c.len() > 0,
        index < data.len(),
        run(t, steps, data).unwrap().nodes.contains_key(c),
        run(t, steps, data).unwrap().nodes[c] == Node::File(data[index as int]),
    decreases steps.len(),
{
    let front = steps.drop_last();
    let mid = run(t, front, data).unwrap();
    if n < steps.len() - 1 {
        assert(front[n] == steps[n]);
        assert forall|m: int| n < m < front.len() implies !writes_to(#[trigger] front[m], c) by {
            assert(front[m] == steps[m]);
        }
        lemma_last_write_stays(t, front, data, n, c, index);
        lemma_step_keeps_file(mid, steps.last(), data, c, data[index as int]);
    }
}

/// Two resolved paths that name one place are one path.
pub proof fn lemma_place_tells_paths_apart(n1: Seq<char>, n2: Seq<char>)
    requires
        resolved(n1) is Some,
        resolved(n2) is Some,
        place(resolved(n1).unwrap()) == place(resolved(n2).unwrap()),
    ensures
        resolved(n1) == resolved(n2),
{
    lemma_components_are_plain(n1);
    lemma_components_are_plain(n2);
    lemma_join_resolves_to_itself(components(n1).unwrap());
    lemma_join_resolves_to_itself(components(n2).unwrap());
}

/// Completeness and overwriting: after a run of an archive's plan that
/// succeeds, the path of each extracted file entry holds that entry's
/// contents, byte for byte, unless a later entry resolves to the same path;
/// of entries that share a path, the last one's contents stay.
pub proof fn lemma_last_entry_wins(
    t: Tree,
    entries: Seq<EntryView>,
    host: Host,
    data: Seq<Seq<u8>>,
    j: int,
)
    requires
        0 <= j < entries.len(),
        entry_path(entries[j]) is Some,
        !is_directory(entries[j]),
        forall|l: int|
            j < l < entries.len() ==> entry_path(#[trigger] entries[l]) != entry_path(entries[j]),
        run(t, archive_actions(entries, host), data) is Some,
    ensures
        j < data.len(),
        run(t, archive_actions(entries, host), data).unwrap().nodes.contains_key(
            place(entry_path(entries[j]).unwrap()),
        ),
        run(t, archive_actions(entries, host), data).unwrap().nodes[place(
            entry_path(entries[j]).unwrap(),
        )] == Node::File(data[j]),
{
    let steps = archive_actions(entries, host);
    let e = entries[j];
    let path = entry_path(e).unwrap();
    let c = place(path);
    let kj = comment_steps(j as nat, e).len() as int + 2;
    let n = entry_offset(entries, host, j) + kj;
    lemma_entry_steps_in_plan(entries, host, j, kj);
    assert forall|m: int| n < m < steps.len() implies !writes_to(#[trigger] steps[m], c) by {
        let (l, k) = lemma_step_belongs_to_entry(entries, host, m);
        if l < j {
            lemma_entry_steps_in_plan(entries, host, l, k);
            lemma_offsets_ascend(entries, host, l + 1, j);
        } else if l > j {
            if writes_to(steps[m], c) {
                let other = entries[l];
                lemma_place_tells_paths_apart(other.enclosed.unwrap(), e.enclosed.unwrap());
            }
        }
    }
    lemma_last_write_stays(t, steps, data, n, c, j as nat);
}

/// Whether the step sets the permission bits of the place.
pub open spec fn sets_mode_of(a: ActionView, c: Seq<Seq<char>>) -> bool {
    match a {
        ActionView::SetMode { path, mode } => place(path) == c,
        _ => false,
    }
}

/// After a run that succeeds, the place whose permission bits a step set
/// has exactly those bits, unless a later step set them too.
pub proof fn lemma_last_mode_stays(
    t: Tree,
    steps: Seq<ActionView>,
    data: Seq<Seq<u8>>,
    n: int,
    c: Seq<Seq<char>>,
    mode: u32,
)
    requires
        0 <= n < steps.len(),
        steps[n] is SetMode,
        steps[n]->SetMode_mode == mode,
        sets_mode_of(steps[n], c),
        forall|m: int| n < m < steps.len() ==> !sets_mode_of(#[trigger] steps[m], c),
        run(t, steps, data) is Some,
    ensures
        run(t, steps, data).unwrap().modes.contains_key(c),
        run(t, steps, data).unwrap().modes[c] == mode,
    decreases steps.len(),
{
    let front = steps.drop_last();
    if n < steps.len() - 1 {
        assert(front[n] == steps[n]);
        assert forall|m: int| n < m < front.len() implies !sets_mode_of(
            #[trigger] front[m],
            c,
        ) by {
            assert(front[m] == steps[m]);
        }
        lemma_last_mode_stays(t, front, data, n, c, mode);
    }
}

/// Permission fidelity: after a run of an archive's plan for a Posix host
/// that succeeds, the path of each extracted entry with a mode has exactly
/// that mode, unless a later entry resolves to the same path.
pub proof fn lemma_mode_is_kept(
    t: Tree,
    entries: Seq<EntryView>,
    data: Seq<Seq<u8>>,
    j: int,
)
    requires
        0 <= j < entries.len(),
        entry_path(entries[j]) is Some,
        entries[j].unix_mode is Some,
        forall|l: int|
            j < l < entries.len() ==> entry_path(#[trigger] entries[l]) != entry_path(entries[j]),
        run(t, archive_actions(entries, Host::Posix), data) is Some,
    ensures
        run(t, archive_actions(entries, Host::Posix), data).unwrap().modes.contains_key(
            place(entry_path(entries[j]).unwrap()),
        ),
        run(t, archive_actions(entries, Host::Posix), data).unwrap().modes[place(
            entry_path(entries[j]).unwrap(),
        )] == entries[j].unix_mode.unwrap(),
{
    let host = Host::Posix;
    let steps = archive_actions(entries, host);
    let e = entries[j];
    let c = place(entry_path(e).unwrap());
    let kj = entry_actions(j as nat, e, host).len() - 1;
    let n = entry_offset(entries, host, j) + kj;
    lemma_mode_is_set_last(j as nat, e, host);
    lemma_entry_steps_in_plan(entries, host, j, kj);
    assert forall|m: int| n < m < steps.len() implies !sets_mode_of(#[trigger] steps[m], c) by {
        let (l, k) = lemma_step_belongs_to_entry(entries, host, m);
        if l < j {
            lemma_entry_steps_in_plan(entries, host, l, k);
            lemma_offsets_ascend(entries, host, l + 1, j);
        } else if l > j {
            if sets_mode_of(steps[m], c) {
                let other = entries[l];
                lemma_mode_is_set_last(l as nat, other, host);
                lemma_place_tells_paths_apart(other.enclosed.unwrap(), e.enclosed.unwrap());
            }
        }
    }
    lemma_last_mode_stays(t, steps, data, n, c, e.unix_mode.unwrap());
}

/// Whether one of the steps writes the file at the place.
pub open spec fn written(steps: Seq<ActionView>, c: Seq<Seq<char>>) -> bool
    decreases steps.len(),
{
    steps.len() > 0 && (writes_to(steps.last(), c) || written(steps.drop_last(), c))
}

/// Whether one of the steps sets the permission bits of the place.
pub open spec fn mode_set(steps: Seq<ActionView>, c: Seq<Seq<char>>) -> bool
    decreases steps.len(),
{
    steps.len() > 0 && (sets_mode_of(steps.last(), c) || mode_set(steps.drop_last(), c))
}

/// Whether everything in `t` is still in `u`, as what it was: directories
/// as directories, files as files, and permission bits where there were
/// some.
pub open spec fn kept_in(t: Tree, u: Tree) -> bool {
    &&& forall|c: Seq<Seq<char>>| #[trigger] is_dir_at(t, c) ==> is_dir_at(u, c)
    &&& forall|c: Seq<Seq<char>>| #[trigger] is_file_at(t, c) ==> is_file_at(u, c)
    &&& forall|c: Seq<Seq<char>>| #[trigger]
        t.modes.contains_key(c) ==> u.modes.contains_key(c)
}

/// No step that succeeds removes anything or turns a file into a directory
/// or a directory into a file.
pub proof fn lemma_step_keeps_kinds(t: Tree, a: ActionView, data: Seq<Seq<u8>>)
    requires
        apply(t, a, data) is Some,
    ensures
        kept_in(t, apply(t, a, data).unwrap()),
{
    let u = apply(t, a, data).unwrap();
    assert forall|c: Seq<Seq<char>>| #[trigger] is_file_at(t, c) implies is_file_at(u, c) by {
        match a {
            ActionView::CreateDirAll(path) => {
                assert(!on_path(c, place(path)));
            },
            ActionView::EnsureParent(path) => {
                let k = place(path);
                if !(k.len() == 0 || exists_at(t, k.drop_last())) {
                    assert(!on_path(c, k.drop_last()));
                }
            },
            _ => {},
        }
    }
}

/// No run that succeeds removes anything or turns a file into a directory
/// or a directory into a file.
pub proof fn lemma_run_keeps_kinds(t: Tree, steps: Seq<ActionView>, data: Seq<Seq<u8>>)
    requires
        run(t, steps, data) is Some,
    ensures
        kept_in(t, run(t, steps, data).unwrap()),
    decreases steps.len(),
{
    if steps.len() > 0 {
        lemma_run_keeps_kinds(t, steps.drop_last(), data);
        lemma_step_keeps_kinds(run(t, steps.drop_last(), data).unwrap(), steps.last(), data);
    }
}

/// A run that succeeds has succeeded after each of its steps, and the rest
/// of the steps lead from there to its end.
pub proof fn lemma_run_splits(t: Tree, steps: Seq<ActionView>, data: Seq<Seq<u8>>, m: int)
    requires
        run(t, steps, data) is Some,
        0 <= m <= steps.len(),
    ensures
        run(t, steps.take(m), data) is Some,
        run(run(t, steps.take(m), data).unwrap(), steps.skip(m), data) == run(t, steps, data),
{
    assert(steps.take(m) + steps.skip(m) =~= steps);
    lemma_run_in_a_row(t, steps.take(m), steps.skip(m), data);
}

/// How the tree `s` of a second run stands to the tree `f` that the first
/// run had after the same steps `done`, where the first run ended in `last`:
/// `s` holds what `last` holds, but for the files that the steps wrote and
/// the modes that they set, which are as in `f`.
pub open spec fn replayed(s: Tree, f: Tree, last: Tree, done: Seq<ActionView>) -> bool {
    &&& forall|c: Seq<Seq<char>>| #[trigger]
        s.nodes.contains_key(c) == last.nodes.contains_key(c)
    &&& forall|c: Seq<Seq<char>>| #[trigger]
        s.modes.contains_key(c) == last.modes.contains_key(c)
    &&& forall|c: Seq<Seq<char>>| #[trigger]
        last.nodes.contains_key(c) ==> s.nodes[c] == if written(done, c) {
            f.nodes[c]
        } else {
            last.nodes[c]
        }
    &&& forall|c: Seq<Seq<char>>| #[trigger] written(done, c) ==> is_file_at(f, c)
    &&& forall|c: Seq<Seq<char>>| #[trigger]
        last.modes.contains_key(c) ==> s.modes[c] == if mode_set(done, c) {
            f.modes[c]
        } else {
            last.modes[c]
        }
    &&& forall|c: Seq<Seq<char>>| #[trigger] mode_set(done, c) ==> f.modes.contains_key(c)
}

/// One step of the second run: it succeeds where the first run's did, and
/// the two trees stand to each other afterwards as before.
pub proof fn lemma_replay_step(
    s: Tree,
    f: Tree,
    last: Tree,
    done: Seq<ActionView>,
    a: ActionView,
    data: Seq<Seq<u8>>,
)
    requires
        replayed(s, f, last, done),
        apply(f, a, data) is Some,
        kept_in(apply(f, a, data).unwrap(), last),
    ensures
        apply(s, a, data) is Some,
        replayed(apply(s, a, data).unwrap(), apply(f, a, data).unwrap(), last, done.push(a)),
{
    let f2 = apply(f, a, data).unwrap();
    let after = done.push(a);
    assert(after.drop_last() =~= done);
    assert(after.last() == a);
    lemma_step_keeps_kinds(f, a, data);
    assert forall|c: Seq<Seq<char>>| written(after, c) == (writes_to(a, c) || written(
        done,
        c,
    )) by {}
    assert forall|c: Seq<Seq<char>>| mode_set(after, c) == (sets_mode_of(a, c) || mode_set(
        done,
        c,
    )) by {}
    match a {
        ActionView::Print(_) => {},
        ActionView::CreateDirAll(path) => {
            lemma_replay_dirs(s, f, last, done, place(path));
        },
        ActionView::EnsureParent(path) => {
            let k = place(path);
            if k.len() > 0 {
                let parent = k.drop_last();
                if exists_at(f, parent) {
                    if parent.len() > 0 {
                        assert(is_dir_at(f2, parent) || is_file_at(f2, parent));
                    }
                } else {
                    lemma_replay_dirs(s, f, last, done, parent);
                    assert(on_path(parent, parent));
                    assert(is_dir_at(f2, parent));
                    assert(is_dir_at(last, parent));
                }
            }
        },
        ActionView::WriteFile { path, index } => {
            let k = place(path);
            let parent = k.drop_last();
            assert(is_dir_at(f2, parent));
            assert(is_dir_at(last, parent));
            assert(is_file_at(f2, k));
            assert(is_file_at(last, k));
            if parent.len() > 0 && written(done, parent) {
                assert(is_file_at(f, parent));
            }
            if written(done, k) {
                assert(is_file_at(f, k));
            }
            let s2 = apply(s, a, data).unwrap();
            assert forall|c: Seq<Seq<char>>| #[trigger]
                last.nodes.contains_key(c) implies s2.nodes[c] == if written(after, c) {
                f2.nodes[c]
            } else {
                last.nodes[c]
            } by {}
        },
        ActionView::SetMode { path, mode } => {
            let k = place(path);
            assert(is_dir_at(f2, k) || is_file_at(f2, k));
            assert(f2.modes.contains_key(k));
        },
    }
}

/// Creating directories in the second run: it succeeds where the first
/// run's did and changes nothing, and what the first run had written stays
/// as it was there.
pub proof fn lemma_replay_dirs(
    s: Tree,
    f: Tree,
    last: Tree,
    done: Seq<ActionView>,
    k: Seq<Seq<char>>,
)
    requires
        replayed(s, f, last, done),
        make_dirs(f, k) is Some,
        kept_in(make_dirs(f, k).unwrap(), last),
    ensures
        make_dirs(s, k) == Some(s),
        replayed(s, make_dirs(f, k).unwrap(), last, done),
{
    let f2 = make_dirs(f, k).unwrap();
    assert forall|q: Seq<Seq<char>>| on_path(q, k) implies is_dir_at(s, q) by {
        assert(is_dir_at(f2, q));
        assert(is_dir_at(last, q));
        if written(done, q) {
            assert(is_file_at(f, q));
        }
    }
    assert(make_dirs(s, k) is Some);
    assert(make_dirs(s, k).unwrap().nodes =~= s.nodes);
    assert forall|c: Seq<Seq<char>>| #[trigger] written(done, c) implies is_file_at(f2, c)
        && f2.nodes[c] == f.nodes[c] by {
        assert(is_file_at(f, c));
        assert(!on_path(c, k));
    }
}

/// The second run, step by step: after each step it has succeeded, and its
/// tree stands to the first run's tree after the same steps as `replayed`
/// says.
pub proof fn lemma_replay(t: Tree, steps: Seq<ActionView>, data: Seq<Seq<u8>>, m: int)
    requires
        run(t, steps, data) is Some,
        0 <= m <= steps.len(),
    ensures
        run(t, steps.take(m), data) is Some,
        run(run(t, steps, data).unwrap(), steps.take(m), data) is Some,
        replayed(
            run(run(t, steps, data).unwrap(), steps.take(m), data).unwrap(),
            run(t, steps.take(m), data).unwrap(),
            run(t, steps, data).unwrap(),
            steps.take(m),
        ),
    decreases m,
{
    let last = run(t, steps, data).unwrap();
    lemma_run_splits(t, steps, data, m);
    if m == 0 {
        assert(steps.take(0) =~= Seq::<ActionView>::empty());
    } else {
        lemma_replay(t, steps, data, m - 1);
        let done = steps.take(m - 1);
        let a = steps[m - 1];
        assert(steps.take(m).drop_last() =~= done);
        assert(steps.take(m) =~= done.push(a));
        let f = run(t, done, data).unwrap();
        let s = run(last, done, data).unwrap();
        let f2 = run(t, steps.take(m), data).unwrap();
        lemma_run_keeps_kinds(f2, steps.skip(m), data);
        lemma_replay_step(s, f, last, done, a, data);
    }
}

/// Idempotence: where a run has succeeded, running the same steps again on
/// the tree that it left succeeds too and leaves the same tree.
pub proof fn lemma_second_run_changes_nothing(
    t: Tree,
    steps: Seq<ActionView>,
    data: Seq<Seq<u8>>,
)
    requires
        run(t, steps, data) is Some,
    ensures
        run(run(t, steps, data).unwrap(), steps, data) == run(t, steps, data),
{
    let last = run(t, steps, data).unwrap();
    lemma_replay(t, steps, data, steps.len() as int);
    assert(steps.take(steps.len() as int) =~= steps);
    let again = run(last, steps, data).unwrap();
    assert(again.nodes =~= last.nodes);
    assert(again.modes =~= last.modes);
}

} // verus!
