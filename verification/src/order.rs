//! What the tree holds after a run, place by place, and why the order of
//! the entries does not matter to it.

use vstd::prelude::*;
use crate::entry::{entry_path, is_directory, EntryView};
use crate::plan::{
    archive_actions, comment_steps, entry_actions, entry_offset, lemma_entry_steps_in_plan,
    lemma_step_belongs_to_entry, ActionView, Host,
};
use crate::tree::{
    ancestor_of, apply, closed, is_dir_at, lemma_last_entry_wins, lemma_mode_is_kept,
    lemma_run_keeps_closed, lemma_run_keeps_kinds, lemma_run_splits, on_path, place, run,
    sets_mode_of, Node, Tree,
};

verus! {

/// The place at which an extracted entry is materialized.
pub open spec fn entry_place(e: EntryView) -> Seq<Seq<char>> {
    place(entry_path(e).unwrap())
}

/// Whether the entry is extracted as a file at the place.
pub open spec fn owns(e: EntryView, c: Seq<Seq<char>>) -> bool {
    entry_path(e) is Some && !is_directory(e) && entry_place(e) == c
}

/// Whether extracting the entry concerns the place: the entry is
/// materialized there or further down.
pub open spec fn touches(e: EntryView, c: Seq<Seq<char>>) -> bool {
    entry_path(e) is Some && on_path(c, entry_place(e))
}

/// Whether extracting the entry sets the permission bits of the place.
pub open spec fn sets_mode_at(e: EntryView, host: Host, c: Seq<Seq<char>>) -> bool {
    entry_path(e) is Some && e.unix_mode is Some && host == Host::Posix && entry_place(e) == c
}

/// The path that a step works on, if it works on one.
pub open spec fn step_path(a: ActionView) -> Option<Seq<char>> {
    match a {
        ActionView::Print(_) => None,
        ActionView::CreateDirAll(path) => Some(path),
        ActionView::EnsureParent(path) => Some(path),
        ActionView::WriteFile { path, index } => Some(path),
        ActionView::SetMode { path, mode } => Some(path),
    }
}

/// Every step of an entry that works on a path works on the entry's
/// resolved path; a mode is set only for an entry that has one, on a Posix
/// host.
pub proof fn lemma_steps_work_on_entry_path(i: nat, e: EntryView, host: Host, k: int)
    requires
        0 <= k < entry_actions(i, e, host).len(),
    ensures
        entry_path(e) is Some,
        step_path(entry_actions(i, e, host)[k]) is Some ==> step_path(
            entry_actions(i, e, host)[k],
        ) == entry_path(e),
        entry_actions(i, e, host)[k] is SetMode ==> e.unix_mode is Some && host == Host::Posix,
{
}

/// A step changes nothing at a place that is neither the place it works on
/// nor above it.
pub proof fn lemma_step_is_local(t: Tree, a: ActionView, data: Seq<Seq<u8>>, c: Seq<Seq<char>>)
    requires
        apply(t, a, data) is Some,
        step_path(a) is Some ==> !on_path(c, place(step_path(a).unwrap())),
    ensures
        apply(t, a, data).unwrap().nodes.contains_key(c) == t.nodes.contains_key(c),
        t.nodes.contains_key(c) ==> apply(t, a, data).unwrap().nodes[c] == t.nodes[c],
{
    match a {
        ActionView::EnsureParent(path) => {
            let k = place(path);
            if k.len() > 0 && on_path(c, k.drop_last()) {
                if c != k.drop_last() {
                    assert(k.drop_last().take(c.len() as int) =~= k.take(c.len() as int));
                }
                assert(on_path(c, k));
            }
        },
        ActionView::WriteFile { path, index } => {
            let k = place(path);
            assert(c != k);
        },
        _ => {},
    }
}

/// A run changes nothing at a place that none of its steps works on or
/// below.
pub proof fn lemma_untouched_stays(
    t: Tree,
    steps: Seq<ActionView>,
    data: Seq<Seq<u8>>,
    c: Seq<Seq<char>>,
)
    requires
        run(t, steps, data) is Some,
        forall|m: int|
            0 <= m < steps.len() && step_path(#[trigger] steps[m]) is Some ==> !on_path(
                c,
                place(step_path(steps[m]).unwrap()),
            ),
    ensures
        run(t, steps, data).unwrap().nodes.contains_key(c) == t.nodes.contains_key(c),
        t.nodes.contains_key(c) ==> run(t, steps, data).unwrap().nodes[c] == t.nodes[c],
    decreases steps.len(),
{
    if steps.len() > 0 {
        let front = steps.drop_last();
        assert forall|m: int|
            0 <= m < front.len() && step_path(#[trigger] front[m]) is Some implies !on_path(
            c,
            place(step_path(front[m]).unwrap()),
        ) by {
            assert(front[m] == steps[m]);
        }
        lemma_untouched_stays(t, front, data, c);
        lemma_step_is_local(run(t, front, data).unwrap(), steps.last(), data, c);
    }
}

/// A run leaves the permission bits of a place alone where none of its
/// steps sets them.
pub proof fn lemma_unset_mode_stays(
    t: Tree,
    steps: Seq<ActionView>,
    data: Seq<Seq<u8>>,
    c: Seq<Seq<char>>,
)
    requires
        run(t, steps, data) is Some,
        forall|m: int| 0 <= m < steps.len() ==> !sets_mode_of(#[trigger] steps[m], c),
    ensures
        run(t, steps, data).unwrap().modes.contains_key(c) == t.modes.contains_key(c),
        t.modes.contains_key(c) ==> run(t, steps, data).unwrap().modes[c] == t.modes[c],
    decreases steps.len(),
{
    if steps.len() > 0 {
        let front = steps.drop_last();
        assert forall|m: int| 0 <= m < front.len() implies !sets_mode_of(
            #[trigger] front[m],
            c,
        ) by {
            assert(front[m] == steps[m]);
        }
        lemma_unset_mode_stays(t, front, data, c);
        assert(!sets_mode_of(steps.last(), c));
    }
}

/// After a run that succeeds on a closed tree, a place above the place of
/// an extracted entry is a directory, and so is the place of an extracted
/// directory entry.
pub proof fn lemma_touched_is_directory(
    t: Tree,
    entries: Seq<EntryView>,
    host: Host,
    data: Seq<Seq<u8>>,
    j: int,
    c: Seq<Seq<char>>,
)
    requires
        closed(t),
        0 <= j < entries.len(),
        touches(entries[j], c),
        !owns(entries[j], c),
        run(t, archive_actions(entries, host), data) is Some,
    ensures
        c.len() > 0,
        is_dir_at(run(t, archive_actions(entries, host), data).unwrap(), c),
{
    let steps = archive_actions(entries, host);
    let e = entries[j];
    let k = entry_place(e);
    let kj = comment_steps(j as nat, e).len() as int + if is_directory(e) {
        1int
    } else {
        2int
    };
    let n = entry_offset(entries, host, j) + kj;
    lemma_entry_steps_in_plan(entries, host, j, kj);
    lemma_run_splits(t, steps, data, n);
    lemma_run_splits(t, steps, data, n + 1);
    let before = run(t, steps.take(n), data).unwrap();
    let after = run(t, steps.take(n + 1), data).unwrap();
    assert(steps.take(n + 1).drop_last() =~= steps.take(n));
    assert(steps.take(n + 1).last() == steps[n]);
    assert(apply(before, steps[n], data) == Some(after));
    lemma_run_keeps_closed(t, steps.take(n), data);
    lemma_run_keeps_kinds(after, steps.skip(n + 1), data);
    if is_directory(e) {
        assert(is_dir_at(after, c));
    } else {
        let parent = k.drop_last();
        assert(is_dir_at(before, parent));
        if c != parent {
            assert(parent.take(c.len() as int) =~= k.take(c.len() as int));
            assert(ancestor_of(c, parent));
            assert(is_dir_at(before, c));
        }
        lemma_run_keeps_kinds(before, steps.skip(n), data);
    }
}

/// Whether no two extracted entries resolve to the same path.
pub open spec fn distinct_paths(entries: Seq<EntryView>) -> bool {
    forall|i: int, j: int|
        0 <= i < entries.len() && 0 <= j < entries.len() && i != j && entry_path(entries[i])
            is Some ==> entry_path(#[trigger] entries[i]) != entry_path(#[trigger] entries[j])
}

/// What a run that succeeds leaves at a place, by the entries that concern
/// the place: the contents of the file entry that is materialized there; a
/// directory where an entry is materialized further down, or a directory
/// entry there; what was there before where no entry concerns the place.
/// Likewise the permission bits: those of the entry at the place that has a
/// mode, or what they were.
pub proof fn lemma_place_after_run(
    t: Tree,
    entries: Seq<EntryView>,
    host: Host,
    data: Seq<Seq<u8>>,
    c: Seq<Seq<char>>,
)
    requires
        closed(t),
        distinct_paths(entries),
        run(t, archive_actions(entries, host), data) is Some,
    ensures
        forall|j: int|
            0 <= j < entries.len() && #[trigger] owns(entries[j], c) ==> {
                &&& j < data.len()
                &&& run(t, archive_actions(entries, host), data).unwrap().nodes.contains_key(c)
                &&& run(t, archive_actions(entries, host), data).unwrap().nodes[c] == Node::File(
                    data[j],
                )
            },
        forall|j: int|
            0 <= j < entries.len() && #[trigger] touches(entries[j], c) && !owns(entries[j], c)
                ==> {
                &&& run(t, archive_actions(entries, host), data).unwrap().nodes.contains_key(c)
                &&& run(t, archive_actions(entries, host), data).unwrap().nodes[c] == Node::Dir
            },
        (forall|j: int| 0 <= j < entries.len() ==> !#[trigger] touches(entries[j], c)) ==> {
            &&& run(t, archive_actions(entries, host), data).unwrap().nodes.contains_key(c)
                == t.nodes.contains_key(c)
            &&& t.nodes.contains_key(c) ==> run(
                t,
                archive_actions(entries, host),
                data,
            ).unwrap().nodes[c] == t.nodes[c]
        },
        forall|j: int|
            0 <= j < entries.len() && #[trigger] sets_mode_at(entries[j], host, c) ==> {
                &&& run(t, archive_actions(entries, host), data).unwrap().modes.contains_key(c)
                &&& run(t, archive_actions(entries, host), data).unwrap().modes[c]
                    == entries[j].unix_mode.unwrap()
            },
        (forall|j: int| 0 <= j < entries.len() ==> !#[trigger] sets_mode_at(entries[j], host, c))
            ==> {
            &&& run(t, archive_actions(entries, host), data).unwrap().modes.contains_key(c)
                == t.modes.contains_key(c)
            &&& t.modes.contains_key(c) ==> run(
                t,
                archive_actions(entries, host),
                data,
            ).unwrap().modes[c] == t.modes[c]
        },
{
    let steps = archive_actions(entries, host);
    let last = run(t, steps, data).unwrap();
    assert forall|j: int| 0 <= j < entries.len() && #[trigger] owns(entries[j], c) implies j
        < data.len() && last.nodes.contains_key(c) && last.nodes[c] == Node::File(data[j]) by {
        assert forall|l: int| j < l < entries.len() implies entry_path(#[trigger] entries[l])
            != entry_path(entries[j]) by {
            assert(entry_path(entries[j]) != entry_path(entries[l]));
        }
        lemma_last_entry_wins(t, entries, host, data, j);
    }
    assert forall|j: int|
        0 <= j < entries.len() && #[trigger] touches(entries[j], c) && !owns(
            entries[j],
            c,
        ) implies last.nodes.contains_key(c) && last.nodes[c] == Node::Dir by {
        lemma_touched_is_directory(t, entries, host, data, j, c);
    }
    if forall|j: int| 0 <= j < entries.len() ==> !#[trigger] touches(entries[j], c) {
        assert forall|m: int|
            0 <= m < steps.len() && step_path(#[trigger] steps[m]) is Some implies !on_path(
            c,
            place(step_path(steps[m]).unwrap()),
        ) by {
            let (l, k) = lemma_step_belongs_to_entry(entries, host, m);
            lemma_steps_work_on_entry_path(l as nat, entries[l], host, k);
            assert(!touches(entries[l], c));
        }
        lemma_untouched_stays(t, steps, data, c);
    }
    assert forall|j: int|
        0 <= j < entries.len() && #[trigger] sets_mode_at(
            entries[j],
            host,
            c,
        ) implies last.modes.contains_key(c) && last.modes[c] == entries[j].unix_mode.unwrap() by {
        assert forall|l: int| j < l < entries.len() implies entry_path(#[trigger] entries[l])
            != entry_path(entries[j]) by {
            assert(entry_path(entries[j]) != entry_path(entries[l]));
        }
        lemma_mode_is_kept(t, entries, data, j);
    }
    if forall|j: int| 0 <= j < entries.len() ==> !#[trigger] sets_mode_at(entries[j], host, c) {
        assert forall|m: int| 0 <= m < steps.len() implies !sets_mode_of(
            #[trigger] steps[m],
            c,
        ) by {
            let (l, k) = lemma_step_belongs_to_entry(entries, host, m);
            lemma_steps_work_on_entry_path(l as nat, entries[l], host, k);
            assert(!sets_mode_at(entries[l], host, c));
        }
        lemma_unset_mode_stays(t, steps, data, c);
    }
}

/// Whether the second archive holds the entries of the first, each with its
/// contents, in another order: `to` gives for each index of the first the
/// index in the second, and `back` leads the other way.
pub open spec fn rearranged(
    e1: Seq<EntryView>,
    d1: Seq<Seq<u8>>,
    e2: Seq<EntryView>,
    d2: Seq<Seq<u8>>,
    to: spec_fn(int) -> int,
    back: spec_fn(int) -> int,
) -> bool {
    &&& e1.len() == e2.len()
    &&& d1.len() == e1.len()
    &&& d2.len() == e2.len()
    &&& forall|i: int|
        0 <= i < e1.len() ==> 0 <= #[trigger] to(i) < e2.len() && e2[to(i)] == e1[i] && d2[to(i)]
            == d1[i] && back(to(i)) == i
    &&& forall|j: int| 0 <= j < e2.len() ==> 0 <= #[trigger] back(j) < e1.len() && to(back(j)) == j
}

/// Order independence: two archives that hold the same entries in another
/// order, no two of them resolving to the same path, leave the same tree
/// where both runs succeed on the same closed tree.
pub proof fn lemma_order_does_not_matter(
    t: Tree,
    host: Host,
    e1: Seq<EntryView>,
    d1: Seq<Seq<u8>>,
    e2: Seq<EntryView>,
    d2: Seq<Seq<u8>>,
    to: spec_fn(int) -> int,
    back: spec_fn(int) -> int,
)
    requires
        closed(t),
        rearranged(e1, d1, e2, d2, to, back),
        distinct_paths(e1),
        run(t, archive_actions(e1, host), d1) is Some,
        run(t, archive_actions(e2, host), d2) is Some,
    ensures
        run(t, archive_actions(e1, host), d1) == run(t, archive_actions(e2, host), d2),
{
    let t1 = run(t, archive_actions(e1, host), d1).unwrap();
    let t2 = run(t, archive_actions(e2, host), d2).unwrap();
    assert(distinct_paths(e2)) by {
        assert forall|i: int, j: int|
            0 <= i < e2.len() && 0 <= j < e2.len() && i != j && entry_path(e2[i])
                is Some implies entry_path(#[trigger] e2[i]) != entry_path(#[trigger] e2[j]) by {
            assert(e2[to(back(i))] == e1[back(i)]);
            assert(e2[to(back(j))] == e1[back(j)]);
            assert(entry_path(e1[back(i)]) != entry_path(e1[back(j)]));
        }
    }
    assert forall|c: Seq<Seq<char>>|
        #![trigger t1.nodes.contains_key(c)]
        #![trigger t2.nodes.contains_key(c)]
        t1.nodes.contains_key(c) == t2.nodes.contains_key(c) && (t1.nodes.contains_key(c)
            ==> t1.nodes[c] == t2.nodes[c]) by {
        lemma_place_after_run(t, e1, host, d1, c);
        lemma_place_after_run(t, e2, host, d2, c);
        if exists|j: int| 0 <= j < e1.len() && touches(e1[j], c) {
            let j = choose|j: int| 0 <= j < e1.len() && touches(e1[j], c);
            assert(e2[to(j)] == e1[j]);
            assert(touches(e2[to(j)], c));
            if owns(e1[j], c) {
                assert(owns(e2[to(j)], c));
            }
        } else {
            assert forall|j: int| 0 <= j < e2.len() implies !#[trigger] touches(e2[j], c) by {
                assert(e2[to(back(j))] == e1[back(j)]);
                assert(!touches(e1[back(j)], c));
            }
        }
    }
    assert forall|c: Seq<Seq<char>>|
        #![trigger t1.modes.contains_key(c)]
        #![trigger t2.modes.contains_key(c)]
        t1.modes.contains_key(c) == t2.modes.contains_key(c) && (t1.modes.contains_key(c)
            ==> t1.modes[c] == t2.modes[c]) by {
        lemma_place_after_run(t, e1, host, d1, c);
        lemma_place_after_run(t, e2, host, d2, c);
        if exists|j: int| 0 <= j < e1.len() && sets_mode_at(e1[j], host, c) {
            let j = choose|j: int| 0 <= j < e1.len() && sets_mode_at(e1[j], host, c);
            assert(e2[to(j)] == e1[j]);
            assert(sets_mode_at(e2[to(j)], host, c));
        } else {
            assert forall|j: int| 0 <= j < e2.len() implies !#[trigger] sets_mode_at(
                e2[j],
                host,
                c,
            ) by {
                assert(e2[to(back(j))] == e1[back(j)]);
                assert(!sets_mode_at(e1[back(j)], host, c));
            }
        }
    }
    assert(t1.nodes =~= t2.nodes);
    assert(t1.modes =~= t2.modes);
}

} // verus!
