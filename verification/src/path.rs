//! The path resolver: from the name an archive entry declares to the path,
//! relative to the working directory, at which the entry is materialized.
//!
//! A name is read as segments separated by `/`. Empty segments and `.` are
//! dropped, `..` removes the component before it, and every other segment is
//! a component of the resolved path. A name that is absolute, holds a NUL, or
//! climbs above the directory it starts in is rejected. A name without any
//! component resolves to `.`, the working directory. Only `/` separates:
//! what else a host takes for a separator or a root is for the archive
//! reader to reject, which then gives the entry no enclosed name.

use vstd::prelude::*;
use crate::text::{chars_of, push_chars};

verus! {

/// What has been read of a name: the components kept so far, the segment
/// being read, and whether the name has stayed inside its root.
pub struct Scan {
    pub stack: Seq<Seq<char>>,
    pub cur: Seq<char>,
    pub ok: bool,
}

/// The segment `.`.
pub open spec fn dot() -> Seq<char> {
    seq!['.']
}

/// The segment `..`.
pub open spec fn dotdot() -> Seq<char> {
    seq!['.', '.']
}

/// The state after the segment being read has ended.
pub open spec fn close(st: Scan) -> Scan {
    if !st.ok {
        Scan { stack: st.stack, cur: Seq::empty(), ok: false }
    } else if st.cur.len() == 0 || st.cur == dot() {
        Scan { stack: st.stack, cur: Seq::empty(), ok: true }
    } else if st.cur == dotdot() {
        if st.stack.len() == 0 {
            Scan { stack: st.stack, cur: Seq::empty(), ok: false }
        } else {
            Scan { stack: st.stack.drop_last(), cur: Seq::empty(), ok: true }
        }
    } else {
        Scan { stack: st.stack.push(st.cur), cur: Seq::empty(), ok: true }
    }
}

/// The state after one more character.
pub open spec fn step(st: Scan, c: char) -> Scan {
    if c == '/' {
        close(st)
    } else {
        Scan { stack: st.stack, cur: st.cur.push(c), ok: st.ok }
    }
}

/// The state after all of `s` has been read, its last segment still open.
pub open spec fn scan(s: Seq<char>) -> Scan
    decreases s.len(),
{
    if s.len() == 0 {
        Scan { stack: Seq::empty(), cur: Seq::empty(), ok: true }
    } else {
        step(scan(s.drop_last()), s.last())
    }
}

/// Whether a name starts at the filesystem's root.
pub open spec fn is_absolute(name: Seq<char>) -> bool {
    name.len() > 0 && name[0] == '/'
}

/// The components of the path that `name` resolves to, or `None` where the
/// name is rejected.
pub open spec fn components(name: Seq<char>) -> Option<Seq<Seq<char>>> {
    let st = close(scan(name));
    if is_absolute(name) || name.contains('\0') || !st.ok {
        None
    } else {
        Some(st.stack)
    }
}

/// The components written as one path, with `/` between them.
pub open spec fn join(parts: Seq<Seq<char>>) -> Seq<char>
    decreases parts.len(),
{
    if parts.len() == 0 {
        Seq::empty()
    } else if parts.len() == 1 {
        parts[0]
    } else {
        join(parts.drop_last()) + seq!['/'] + parts.last()
    }
}

/// The path that names the place to which the components lead: `.` for
/// the working directory itself, else the components with `/` between them.
pub open spec fn path_of(parts: Seq<Seq<char>>) -> Seq<char> {
    if parts.len() == 0 {
        dot()
    } else {
        join(parts)
    }
}

/// The path that `name` resolves to, or `None` where the name is rejected.
pub open spec fn resolved(name: Seq<char>) -> Option<Seq<char>> {
    match components(name) {
        Some(parts) => Some(path_of(parts)),
        None => None,
    }
}

/// The parent of the place that `name` resolves to, as a path: all its
/// components but the last, with `/` between them. `None` where the name is
/// rejected or resolves to the working directory itself.
pub open spec fn parent_path(name: Seq<char>) -> Option<Seq<char>> {
    match components(name) {
        Some(parts) => if parts.len() == 0 {
            None
        } else {
            Some(join(parts.drop_last()))
        },
        None => None,
    }
}

/// Whether a component is an ordinary name: not empty, not `.`, not `..`,
/// and with neither a separator nor a NUL in it.
pub open spec fn is_plain(part: Seq<char>) -> bool {
    part.len() > 0 && part != dot() && part != dotdot() && !part.contains('/') && !part.contains(
        '\0',
    )
}

/// Whether every component is an ordinary name.
pub open spec fn all_plain(parts: Seq<Seq<char>>) -> bool {
    forall|k: int| 0 <= k < parts.len() ==> is_plain(#[trigger] parts[k])
}

/// While a name without a NUL is read, every component kept is an ordinary
/// name, and the segment being read holds neither a separator nor a NUL.
pub proof fn lemma_scan_keeps_plain_components(s: Seq<char>)
    requires
        !s.contains('\0'),
    ensures
        all_plain(scan(s).stack),
        !scan(s).cur.contains('/'),
        !scan(s).cur.contains('\0'),
    decreases s.len(),
{
    if s.len() > 0 {
        let front = s.drop_last();
        assert forall|j: int| 0 <= j < front.len() implies front[j] != '\0' by {
            assert(s[j] == front[j]);
            assert(s.contains(s[j]));
        }
        lemma_scan_keeps_plain_components(front);
        let before = scan(front);
        assert(s.contains(s.last()));
        if s.last() != '/' {
            assert forall|j: int| 0 <= j < scan(s).cur.len() implies scan(s).cur[j] != '/'
                && scan(s).cur[j] != '\0' by {
                if j < before.cur.len() {
                    assert(before.cur.contains(before.cur[j]));
                }
            }
        }
    }
}

/// A resolved path stays below the working directory: each of its
/// components is an ordinary name, so none leads up or back to the root.
pub proof fn lemma_components_are_plain(name: Seq<char>)
    requires
        components(name) is Some,
    ensures
        all_plain(components(name).unwrap()),
{
    lemma_scan_keeps_plain_components(name);
}

/// Reading on through characters that are no separator only lengthens the
/// segment being read.
pub proof fn lemma_scan_segment(a: Seq<char>, b: Seq<char>)
    requires
        !b.contains('/'),
    ensures
        scan(a + b) == (Scan { stack: scan(a).stack, cur: scan(a).cur + b, ok: scan(a).ok }),
    decreases b.len(),
{
    if b.len() == 0 {
        assert(a + b =~= a);
        assert(scan(a).cur + b =~= scan(a).cur);
    } else {
        let front = b.drop_last();
        assert forall|j: int| 0 <= j < front.len() implies front[j] != '/' by {
            assert(b[j] == front[j]);
            assert(b.contains(b[j]));
        }
        lemma_scan_segment(a, front);
        assert((a + b).drop_last() =~= a + front);
        assert(b.contains(b.last()));
        assert((scan(a).cur + front).push(b.last()) =~= scan(a).cur + b);
    }
}

/// Reading a separator ends the segment being read.
pub proof fn lemma_scan_separator(a: Seq<char>)
    ensures
        scan(a + seq!['/']) == close(scan(a)),
{
    assert((a + seq!['/']).drop_last() =~= a);
}

/// Reading a path of ordinary components keeps all but the last, which is
/// the segment still open.
pub proof fn lemma_scan_of_join(parts: Seq<Seq<char>>)
    requires
        parts.len() > 0,
        all_plain(parts),
    ensures
        scan(join(parts)) == (Scan { stack: parts.drop_last(), cur: parts.last(), ok: true }),
    decreases parts.len(),
{
    let empty = Seq::<char>::empty();
    if parts.len() == 1 {
        lemma_scan_segment(empty, parts[0]);
        assert(empty + parts[0] =~= parts[0]);
        assert(parts.drop_last() =~= Seq::<Seq<char>>::empty());
    } else {
        let front = parts.drop_last();
        lemma_scan_of_join(front);
        lemma_scan_separator(join(front));
        assert(front.drop_last().push(front.last()) =~= front);
        lemma_scan_segment(join(front) + seq!['/'], parts.last());
        assert(empty + parts.last() =~= parts.last());
    }
}

/// A path of ordinary components holds no NUL and, unless it is empty,
/// begins with the first character of its first component.
pub proof fn lemma_join_is_relative(parts: Seq<Seq<char>>)
    requires
        all_plain(parts),
    ensures
        !join(parts).contains('\0'),
        !is_absolute(join(parts)),
        parts.len() > 0 ==> join(parts).len() > 0,
    decreases parts.len(),
{
    if parts.len() == 1 {
        let first = parts[0];
        assert(first.contains(first[0]));
    } else if parts.len() > 1 {
        let front = parts.drop_last();
        lemma_join_is_relative(front);
        let whole = join(parts);
        assert(whole[0] == join(front)[0]);
        assert forall|j: int| 0 <= j < whole.len() implies whole[j] != '\0' by {
            if j < join(front).len() {
                assert(join(front).contains(join(front)[j]));
            } else if j > join(front).len() {
                let k = j - join(front).len() - 1;
                assert(parts.last().contains(parts.last()[k]));
            }
        }
    }
}

/// A path of ordinary components resolves to itself, component by
/// component, and so does `.`, the path of no components.
pub proof fn lemma_join_resolves_to_itself(parts: Seq<Seq<char>>)
    requires
        all_plain(parts),
    ensures
        components(path_of(parts)) == Some(parts),
        resolved(path_of(parts)) == Some(path_of(parts)),
{
    if parts.len() == 0 {
        assert(parts =~= Seq::<Seq<char>>::empty());
        assert(dot().drop_last() =~= Seq::<char>::empty());
        reveal_with_fuel(scan, 2);
        assert(scan(dot()).cur =~= dot());
        assert(scan(dot()).stack =~= Seq::<Seq<char>>::empty());
        assert(!dot().contains('\0'));
    } else {
        lemma_join_is_relative(parts);
        lemma_scan_of_join(parts);
        assert(parts.drop_last().push(parts.last()) =~= parts);
    }
}

/// Whether two dots stand side by side somewhere in the name.
pub open spec fn has_double_dot(s: Seq<char>) -> bool {
    exists|i: int| #![trigger s[i]] 0 <= i < s.len() - 1 && s[i] == '.' && s[i + 1] == '.'
}

/// While a name without two dots side by side is read, it stays inside its
/// root, and the segment being read is the end of what was read.
pub proof fn lemma_scan_without_double_dot(s: Seq<char>)
    requires
        !has_double_dot(s),
    ensures
        scan(s).ok,
        scan(s).cur.len() <= s.len(),
        scan(s).cur == s.subrange(s.len() - scan(s).cur.len(), s.len() as int),
        close(scan(s)).ok,
    decreases s.len(),
{
    if s.len() > 0 {
        let front = s.drop_last();
        if has_double_dot(front) {
            let i = choose|i: int|
                #![trigger front[i]]
                0 <= i < front.len() - 1 && front[i] == '.' && front[i + 1] == '.';
            assert(s[i] == '.' && s[i + 1] == '.');
        }
        lemma_scan_without_double_dot(front);
        assert(scan(s).cur =~= s.subrange(s.len() - scan(s).cur.len(), s.len() as int));
    }
    let cur = scan(s).cur;
    if cur == dotdot() {
        assert(dotdot().len() == 2);
        let at = s.len() - 2;
        let end = s.subrange(at, s.len() as int);
        assert(end[0] == s[at] && end[1] == s[at + 1]);
        assert(dotdot()[0] == '.' && dotdot()[1] == '.');
    }
}

/// A relative name without a NUL and without two dots side by side
/// resolves: it cannot climb anywhere.
pub proof fn lemma_name_without_double_dot_resolves(name: Seq<char>)
    requires
        !is_absolute(name),
        !name.contains('\0'),
        !has_double_dot(name),
    ensures
        components(name) is Some,
        resolved(name) is Some,
{
    lemma_scan_without_double_dot(name);
}

/// Resolving is idempotent: a resolved path resolves to itself.
pub proof fn lemma_resolved_is_fixed(name: Seq<char>)
    requires
        resolved(name) is Some,
    ensures
        resolved(resolved(name).unwrap()) == resolved(name),
{
    lemma_components_are_plain(name);
    lemma_join_resolves_to_itself(components(name).unwrap());
}

/// Once a name has climbed above its root, nothing that follows brings it
/// back.
pub proof fn lemma_rejection_persists(s: Seq<char>, i: int)
    requires
        0 <= i <= s.len(),
        !scan(s.take(i)).ok,
    ensures
        !scan(s).ok,
        !close(scan(s)).ok,
    decreases s.len() - i,
{
    if i < s.len() {
        assert(s.take(i + 1).drop_last() =~= s.take(i));
        lemma_rejection_persists(s, i + 1);
    } else {
        assert(s.take(i) =~= s);
    }
}

/// Whether a name is unsafe on the face of it: it is absolute, holds a NUL,
/// or begins by climbing to the parent directory.
pub open spec fn is_plainly_unsafe(name: Seq<char>) -> bool {
    is_absolute(name) || name.contains('\0') || name == dotdot() || (name.len() >= 3
        && name.take(3) == seq!['.', '.', '/'])
}

/// A name that is absolute, holds a NUL, or begins by climbing to the
/// parent directory is rejected.
pub proof fn lemma_unsafe_name_is_rejected(name: Seq<char>)
    requires
        is_plainly_unsafe(name),
    ensures
        components(name) is None,
        resolved(name) is None,
{
    if name == dotdot() {
        assert(name.drop_last() == seq!['.']);
        assert(name.drop_last().drop_last() =~= Seq::<char>::empty());
        reveal_with_fuel(scan, 3);
        assert(scan(name).cur =~= dotdot());
    } else if name.len() >= 3 && name.take(3) == seq!['.', '.', '/'] {
        let t = name.take(3);
        assert(t.drop_last() =~= dotdot());
        assert(t.drop_last().drop_last() =~= dot());
        assert(t.drop_last().drop_last().drop_last() =~= Seq::<char>::empty());
        reveal_with_fuel(scan, 4);
        assert(scan(dotdot()).cur =~= dotdot());
        assert(!scan(t).ok);
        lemma_rejection_persists(name, 3);
    }
}

/// The components held by a vector of character vectors.
pub open spec fn parts_view(v: Seq<Vec<char>>) -> Seq<Seq<char>> {
    Seq::new(v.len(), |i: int| v[i]@)
}

/// Ends the segment being read: drops it, pops a component, or keeps it.
fn close_segment(stack: &mut Vec<Vec<char>>, cur: &mut Vec<char>, ok: &mut bool)
    ensures
        (Scan { stack: parts_view(final(stack)@), cur: final(cur)@, ok: *final(ok) }) == close(
            Scan { stack: parts_view(old(stack)@), cur: old(cur)@, ok: *old(ok) },
        ),
{
    let len: usize = cur.len();
    let is_dot: bool = len == 1 && cur[0] == '.';
    let is_dotdot: bool = len == 2 && cur[0] == '.' && cur[1] == '.';
    proof {
        assert(is_dot <==> cur@ =~= dot());
        assert(is_dotdot <==> cur@ =~= dotdot());
    }
    if !*ok || len == 0 || is_dot {
        cur.clear();
    } else if is_dotdot {
        if stack.len() == 0 {
            *ok = false;
        } else {
            stack.pop();
            proof {
                assert(parts_view(stack@) =~= parts_view(old(stack)@).drop_last());
            }
        }
        cur.clear();
    } else {
        let mut seg: Vec<char> = Vec::new();
        core::mem::swap(cur, &mut seg);
        stack.push(seg);
        proof {
            assert(parts_view(stack@) =~= parts_view(old(stack)@).push(old(cur)@));
        }
    }
    proof {
        assert(cur@ =~= Seq::<char>::empty());
    }
}

/// Writes the components as one path, with `/` between them.
fn join_parts(parts: &Vec<Vec<char>>) -> (out: String)
    ensures
        out@ == join(parts_view(parts@)),
{
    let mut out: String = String::new();
    let mut k: usize = 0;
    while k < parts.len()
        invariant
            k <= parts.len(),
            out@ == join(parts_view(parts@).take(k as int)),
        decreases parts.len() - k,
    {
        if k > 0 {
            out.push('/');
        }
        push_chars(&mut out, &parts[k]);
        proof {
            let all = parts_view(parts@);
            assert(all.take(k + 1).drop_last() =~= all.take(k as int));
            assert(all.take(k + 1).last() == parts@[k as int]@);
            assert(out@ =~= join(all.take(k + 1)));
        }
        k = k + 1;
    }
    proof {
        assert(parts_view(parts@).take(k as int) =~= parts_view(parts@));
    }
    out
}

/// Reads the name into the components of the path that it resolves to, or
/// `None` where the name is rejected.
fn resolve_parts(name: &str) -> (r: Option<Vec<Vec<char>>>)
    ensures
        match r {
            Some(parts) => components(name@) == Some(parts_view(parts@)),
            None => components(name@) is None,
        },
{
    let chars: Vec<char> = chars_of(name);
    let n: usize = chars.len();
    let mut stack: Vec<Vec<char>> = Vec::new();
    let mut cur: Vec<char> = Vec::new();
    let mut ok: bool = true;
    let mut has_nul: bool = false;
    let mut i: usize = 0;
    proof {
        assert(parts_view(stack@) =~= Seq::<Seq<char>>::empty());
    }
    while i < n
        invariant
            n == chars@.len(),
            i <= n,
            scan(chars@.take(i as int)) == (Scan { stack: parts_view(stack@), cur: cur@, ok: ok }),
            has_nul == chars@.take(i as int).contains('\0'),
        decreases n - i,
    {
        let c: char = chars[i];
        proof {
            let before = chars@.take(i as int);
            let after = chars@.take(i + 1);
            assert(after.drop_last() =~= before);
            assert(after.last() == c);
            if before.contains('\0') {
                let j = choose|j: int| 0 <= j < before.len() && before[j] == '\0';
                assert(after[j] == '\0');
            }
            if c == '\0' {
                assert(after[i as int] == '\0');
            }
            if after.contains('\0') {
                let j = choose|j: int| 0 <= j < after.len() && after[j] == '\0';
                if j < i {
                    assert(before[j] == '\0');
                }
            }
        }
        if c == '\0' {
            has_nul = true;
        }
        if c == '/' {
            close_segment(&mut stack, &mut cur, &mut ok);
        } else {
            cur.push(c);
        }
        i = i + 1;
    }
    proof {
        assert(chars@.take(i as int) =~= chars@);
    }
    close_segment(&mut stack, &mut cur, &mut ok);
    if (n > 0 && chars[0] == '/') || has_nul || !ok {
        None
    } else {
        Some(stack)
    }
}


/// Resolves the name that an entry declares to the path at which the entry
/// is materialized, relative to the working directory: `.` for the working
/// directory itself. Returns `None` for a name that is absolute, holds a
/// NUL, or climbs above its root.
pub fn resolve_path(name: &str) -> (r: Option<String>)
    ensures
        match r {
            Some(p) => resolved(name@) == Some(p@),
            None => resolved(name@) is None,
        },
{
    match resolve_parts(name) {
        Some(parts) => {
            if parts.len() == 0 {
                let mut here: String = String::new();
                here.push('.');
                proof {
                    assert(here@ =~= dot());
                }
                Some(here)
            } else {
                Some(join_parts(&parts))
            }
        },
        None => None,
    }
}

/// The parent directory of the place that a path names, as a path: all
/// components of the path but the last, so the empty path for a place right
/// below the working directory. Returns `None` for a path that names the
/// working directory itself, and for one that does not resolve.
pub fn parent_of(path: &str) -> (r: Option<String>)
    ensures
        match r {
            Some(p) => parent_path(path@) == Some(p@),
            None => parent_path(path@) is None,
        },
{
    match resolve_parts(path) {
        Some(parts) => {
            let mut parts = parts;
            if parts.len() == 0 {
                None
            } else {
                let ghost all = parts_view(parts@);
                parts.pop();
                proof {
                    assert(parts_view(parts@) =~= all.drop_last());
                }
                Some(join_parts(&parts))
            }
        },
        None => None,
    }
}

} // verus!
