//! Non-recursive, stack-based directory scanning, as a state machine.
//!
//! The scan keeps a stack of pending directories. Whoever drives it pops a
//! directory with [`FileScan::next_dir`], lists it, and hands each entry to
//! [`FileScan::visit_entry`]; for a symbolic link, the scan asks for the
//! link's resolution, which [`FileScan::follow_link`] takes. Ordinary
//! directories are pushed as they are; symbolic-link targets are tracked so
//! that no directory cycle is followed.
use vstd::prelude::*;
use vstd::multiset::Multiset;
use crate::components::{components, components_eq, opt_text, parse_path, view_comps};
use crate::pathfilter::{spec_contains, spec_contains_resolved, FilterView, Pathfilter};
use crate::pathutils::{matches_extension, matches_extension_spec, path_extension, strs_view};

verus! {

/// A directory still to be listed, with the canonical directories passed
/// through symbolic links on the way to it.
pub struct PendingDir {
    pub path: String,
    pub symlink_ancestors: Vec<String>,
}

/// The model of a pending directory.
pub struct PendingView {
    pub path: Seq<char>,
    pub ancestors: Seq<Seq<char>>,
}

impl View for PendingDir {
    type V = PendingView;

    open spec fn view(&self) -> PendingView {
        PendingView { path: self.path@, ancestors: strs_view(self.symlink_ancestors@) }
    }
}

/// What a directory entry is, without following links.
pub enum EntryKind {
    Directory,
    File,
    Symlink,
    Other,
}

/// What a resolved link target is.
pub enum TargetKind {
    Directory,
    File,
    Other,
}

/// The resolution of a symbolic link: its canonical target, what the target
/// is (`Other` also where its metadata could not be read), the canonical form
/// of the directory that holds the link (`None` where it could not be
/// resolved), and the canonical forms of the filter's roots (see
/// [`Pathfilter::contains_resolved`]).
pub struct LinkTarget {
    pub target: String,
    pub kind: TargetKind,
    pub current_dir: Option<String>,
    pub canonical_roots: Vec<Option<String>>,
}

/// What the scan needs after an entry has been visited.
pub enum EntryStep {
    Done,
    ResolveLink,
}

/// The model of a scan.
pub struct ScanView {
    pub stack: Seq<PendingView>,
    pub visited: Seq<Seq<char>>,
    pub files: Seq<Seq<char>>,
    pub extensions: Option<Seq<Seq<char>>>,
    pub filter: Option<FilterView>,
}

/// Whether some path among `list` equals `p`, component by component.
pub open spec fn path_among(list: Seq<Seq<char>>, p: Seq<char>) -> bool {
    exists|i: int| 0 <= i < list.len() && parse_path(#[trigger] list[i]) == parse_path(p)
}

/// No two paths of `list` are equal.
pub open spec fn distinct_paths(list: Seq<Seq<char>>) -> bool {
    forall|i: int, j: int|
        0 <= i < j < list.len() ==> parse_path(#[trigger] list[i]) != parse_path(#[trigger] list[j])
}

/// Whether an ordinary file is collected.
pub open spec fn file_selected(s: ScanView, path: Seq<char>) -> bool {
    &&& match s.filter {
        Some(f) => spec_contains(f, path),
        None => true,
    }
    &&& matches_extension_spec(path, s.extensions)
}

/// Whether the filter lets a scan follow a resolved link target.
pub open spec fn link_allowed(s: ScanView, l: LinkTarget) -> bool {
    match s.filter {
        Some(f) => spec_contains_resolved(
            f,
            Some(l.target@),
            l.canonical_roots@.map_values(|c: Option<String>| opt_text(c)),
        ),
        None => true,
    }
}

/// The ancestors recorded for a directory reached through a link: those of
/// the directory holding the link, then that directory itself where it
/// resolved, then the target.
pub open spec fn link_ancestors(dir: PendingView, l: LinkTarget) -> Seq<Seq<char>> {
    match l.current_dir {
        Some(c) => dir.ancestors.push(c@).push(l.target@),
        None => dir.ancestors.push(l.target@),
    }
}

/// The state after following a link from `dir`.
pub open spec fn after_link(s: ScanView, dir: PendingView, link: Option<LinkTarget>) -> ScanView {
    match link {
        None => s,
        Some(l) => if !link_allowed(s, l) {
            s
        } else {
            match l.kind {
                TargetKind::File => if matches_extension_spec(l.target@, s.extensions) {
                    ScanView { files: s.files.push(l.target@), ..s }
                } else {
                    s
                },
                TargetKind::Directory => if !path_among(dir.ancestors, l.target@) && !path_among(
                    s.visited,
                    l.target@,
                ) {
                    ScanView {
                        stack: s.stack.push(
                            PendingView { path: l.target@, ancestors: link_ancestors(dir, l) },
                        ),
                        visited: s.visited.push(l.target@),
                        ..s
                    }
                } else {
                    s
                },
                TargetKind::Other => s,
            }
        },
    }
}

/// The state after visiting one entry of `dir`: a directory is queued with
/// the same link ancestors, a file is collected where the filter and the
/// extensions admit it; anything else changes nothing.
pub open spec fn after_visit(s: ScanView, dir: PendingView, path: Seq<char>, kind: EntryKind) -> ScanView {
    match kind {
        EntryKind::Directory => ScanView {
            stack: s.stack.push(PendingView { path: path, ancestors: dir.ancestors }),
            ..s
        },
        EntryKind::File => if file_selected(s, path) {
            ScanView { files: s.files.push(path), ..s }
        } else {
            s
        },
        _ => s,
    }
}

/// The state after taking the next directory to list.
pub open spec fn after_pop(s: ScanView) -> ScanView {
    if s.stack.len() > 0 {
        ScanView { stack: s.stack.drop_last(), ..s }
    } else {
        s
    }
}

/// What happens to a scan in one step: a directory is taken from the stack,
/// an entry of a listed directory is visited, or a link found there is
/// followed.
pub enum ScanEvent {
    Pop,
    Visit(PendingView, Seq<char>, EntryKind),
    Follow(PendingView, Option<LinkTarget>),
}

/// The state after one step.
pub open spec fn scan_step(s: ScanView, e: ScanEvent) -> ScanView {
    match e {
        ScanEvent::Pop => after_pop(s),
        ScanEvent::Visit(dir, path, kind) => after_visit(s, dir, path, kind),
        ScanEvent::Follow(dir, link) => after_link(s, dir, link),
    }
}

/// The state after a run of steps.
pub open spec fn scan_run(s: ScanView, events: Seq<ScanEvent>) -> ScanView
    decreases events.len(),
{
    if events.len() == 0 {
        s
    } else {
        scan_step(scan_run(s, events.drop_last()), events.last())
    }
}

/// Whether a run holds no link that resolved.
pub open spec fn follows_no_link(events: Seq<ScanEvent>) -> bool {
    forall|i: int| 0 <= i < events.len() ==> !(#[trigger] events[i] matches ScanEvent::Follow(_, Some(_)))
}

/// Whether a run followed a link to `p` that the filter admits as a resolved target.
pub open spec fn admitted_link_target(events: Seq<ScanEvent>, f: FilterView, p: Seq<char>) -> bool {
    exists|i: int|
        0 <= i < events.len() && match #[trigger] events[i] {
            ScanEvent::Follow(_, Some(l)) => l.target@ == p && spec_contains_resolved(
                f,
                Some(p),
                l.canonical_roots@.map_values(|c: Option<String>| opt_text(c)),
            ),
            _ => false,
        }
}

proof fn lemma_filter_push(s: Seq<Seq<char>>, x: Seq<char>, pred: spec_fn(Seq<char>) -> bool)
    ensures
        s.push(x).filter(pred) == if pred(x) {
            s.filter(pred).push(x)
        } else {
            s.filter(pred)
        },
{
    reveal_with_fuel(Seq::filter, 1);
    assert(s.push(x).drop_last() =~= s);
}

/// Over the same run, a scan restricted to a set of extensions takes the
/// same directories as the scan without one, and collects exactly the files
/// of that scan that have one of the extensions, in the same order. So
/// `collect_files_fast` and `collect_files_fast_multi` collect what
/// `collect_files_all` collects, restricted to the extensions, and the same
/// holds of the filtered scans.
pub proof fn lemma_extension_scan_restricts(
    root: Seq<char>,
    extensions: Seq<Seq<char>>,
    filter: Option<FilterView>,
    events: Seq<ScanEvent>,
)
    ensures
        ({
            let all = scan_run(initial_scan(root, None, filter), events);
            let some = scan_run(initial_scan(root, Some(extensions), filter), events);
            &&& some.stack == all.stack
            &&& some.visited == all.visited
            &&& some.files == all.files.filter(
                |p: Seq<char>| matches_extension_spec(p, Some(extensions)),
            )
        }),
    decreases events.len(),
{
    let pred = |p: Seq<char>| matches_extension_spec(p, Some(extensions));
    if events.len() == 0 {
        assert(Seq::<Seq<char>>::empty().filter(pred) =~= Seq::<Seq<char>>::empty()) by {
            reveal_with_fuel(Seq::filter, 1);
        }
    } else {
        lemma_extension_scan_restricts(root, extensions, filter, events.drop_last());
        let a = scan_run(initial_scan(root, None, filter), events.drop_last());
        let b = scan_run(initial_scan(root, Some(extensions), filter), events.drop_last());
        assert(a.filter == filter && b.filter == filter) by {
            lemma_run_keeps_config(initial_scan(root, None, filter), events.drop_last());
            lemma_run_keeps_config(initial_scan(root, Some(extensions), filter), events.drop_last());
        }
        assert(a.extensions == None::<Seq<Seq<char>>> && b.extensions == Some(extensions)) by {
            lemma_run_keeps_config(initial_scan(root, None, filter), events.drop_last());
            lemma_run_keeps_config(initial_scan(root, Some(extensions), filter), events.drop_last());
        }
        match events.last() {
            ScanEvent::Pop => {},
            ScanEvent::Visit(dir, path, kind) => {
                lemma_filter_push(a.files, path, pred);
            },
            ScanEvent::Follow(dir, link) => {
                match link {
                    Some(l) => {
                        lemma_filter_push(a.files, l.target@, pred);
                    },
                    None => {},
                }
            },
        }
    }
}

/// A run never changes the extensions or the filter of a scan.
pub proof fn lemma_run_keeps_config(s: ScanView, events: Seq<ScanEvent>)
    ensures
        scan_run(s, events).extensions == s.extensions,
        scan_run(s, events).filter == s.filter,
    decreases events.len(),
{
    if events.len() > 0 {
        lemma_run_keeps_config(s, events.drop_last());
    }
}

/// A set of extensions admits a path exactly when one of its extensions
/// alone does: the scan over several extensions collects the files that the
/// one-extension scans collect, each once, and over one extension it is the
/// one-extension scan.
pub proof fn lemma_extension_set_is_union(p: Seq<char>, extensions: Seq<Seq<char>>)
    ensures
        matches_extension_spec(p, Some(extensions)) <==> exists|i: int|
            0 <= i < extensions.len() && matches_extension_spec(p, Some(seq![#[trigger] extensions[i]])),
{
    if matches_extension_spec(p, Some(extensions)) {
        let e = path_extension(p)->0;
        let i = choose|i: int| 0 <= i < extensions.len() && extensions[i] == e;
        assert(seq![extensions[i]][0] == e);
        assert(matches_extension_spec(p, Some(seq![extensions[i]])));
    }
    if exists|i: int|
        0 <= i < extensions.len() && matches_extension_spec(p, Some(seq![#[trigger] extensions[i]])) {
        let i = choose|i: int|
            0 <= i < extensions.len() && matches_extension_spec(p, Some(seq![#[trigger] extensions[i]]));
        let e = path_extension(p)->0;
        assert(seq![extensions[i]].contains(e));
        let k = choose|k: int| 0 <= k < 1 && seq![extensions[i]][k] == e;
        assert(extensions[i] == e);
        assert(extensions.contains(e));
    }
}

/// Two extension lists with the same members give the same scan over the
/// same run: repeating an extension adds nothing, and order does not matter.
pub proof fn lemma_extension_scan_same_set(
    root: Seq<char>,
    exts1: Seq<Seq<char>>,
    exts2: Seq<Seq<char>>,
    filter: Option<FilterView>,
    events: Seq<ScanEvent>,
)
    requires
        forall|e: Seq<char>| exts1.contains(e) <==> exts2.contains(e),
    ensures
        ({
            let s1 = scan_run(initial_scan(root, Some(exts1), filter), events);
            let s2 = scan_run(initial_scan(root, Some(exts2), filter), events);
            &&& s1.stack == s2.stack
            &&& s1.visited == s2.visited
            &&& s1.files == s2.files
        }),
{
    lemma_extension_scan_restricts(root, exts1, filter, events);
    lemma_extension_scan_restricts(root, exts2, filter, events);
    let p1 = |p: Seq<char>| matches_extension_spec(p, Some(exts1));
    let p2 = |p: Seq<char>| matches_extension_spec(p, Some(exts2));
    assert(p1 =~= p2);
}

/// The files of the one-extension scans over each of `exts`, put together.
pub open spec fn single_extension_scans(
    root: Seq<char>,
    exts: Seq<Seq<char>>,
    filter: Option<FilterView>,
    events: Seq<ScanEvent>,
) -> Multiset<Seq<char>>
    decreases exts.len(),
{
    if exts.len() == 0 {
        Multiset::empty()
    } else {
        single_extension_scans(root, exts.drop_last(), filter, events).add(
            scan_run(initial_scan(root, Some(seq![exts.last()]), filter), events).files.to_multiset(),
        )
    }
}

proof fn lemma_empty_to_multiset(s: Seq<Seq<char>>)
    requires
        s.len() == 0,
    ensures
        s.to_multiset() =~= Multiset::<Seq<char>>::empty(),
{
    broadcast use vstd::seq_lib::group_to_multiset_ensures, vstd::multiset::group_multiset_axioms;

    assert forall|a: Seq<char>| s.to_multiset().count(a) == 0 by {
        assert(!s.contains(a));
    }
}

/// Filtering by a list of extensions with one more, new extension splits
/// into the two filters.
proof fn lemma_extension_filter_split(s: Seq<Seq<char>>, exts: Seq<Seq<char>>, e: Seq<char>)
    requires
        !exts.contains(e),
    ensures
        s.filter(|p: Seq<char>| matches_extension_spec(p, Some(exts.push(e)))).to_multiset()
            =~= s.filter(|p: Seq<char>| matches_extension_spec(p, Some(exts))).to_multiset().add(
            s.filter(|p: Seq<char>| matches_extension_spec(p, Some(seq![e]))).to_multiset(),
        ),
    decreases s.len(),
{
    broadcast use vstd::seq_lib::group_to_multiset_ensures, vstd::multiset::group_multiset_axioms;

    let pa = |p: Seq<char>| matches_extension_spec(p, Some(exts.push(e)));
    let pb = |p: Seq<char>| matches_extension_spec(p, Some(exts));
    let pc = |p: Seq<char>| matches_extension_spec(p, Some(seq![e]));
    if s.len() == 0 {
        reveal_with_fuel(Seq::filter, 1);
        lemma_empty_to_multiset(s.filter(pa));
        lemma_empty_to_multiset(s.filter(pb));
        lemma_empty_to_multiset(s.filter(pc));
    } else {
        let s0 = s.drop_last();
        let x = s.last();
        lemma_extension_filter_split(s0, exts, e);
        assert(pa(x) == (pb(x) || pc(x)) && !(pb(x) && pc(x))) by {
            match path_extension(x) {
                Some(y) => {
                    if exts.push(e).contains(y) {
                        let k = choose|k: int| 0 <= k < exts.push(e).len() && exts.push(e)[k] == y;
                        if k < exts.len() {
                            assert(exts[k] == y);
                        } else {
                            assert(seq![e][0] == y);
                        }
                    }
                    if exts.contains(y) {
                        let k = choose|k: int| 0 <= k < exts.len() && exts[k] == y;
                        assert(exts.push(e)[k] == y);
                    }
                    if seq![e].contains(y) {
                        let k = choose|k: int| 0 <= k < 1 && seq![e][k] == y;
                        assert(y == e);
                        assert(exts.push(e)[exts.len() as int] == y);
                    }
                },
                None => {},
            }
        }
        let fa = s0.filter(pa);
        let fb = s0.filter(pb);
        let fc = s0.filter(pc);
        assert(s0.push(x) =~= s);
        lemma_filter_push(s0, x, pa);
        lemma_filter_push(s0, x, pb);
        lemma_filter_push(s0, x, pc);
        if pb(x) {
            assert(fa.push(x).to_multiset() =~= fa.to_multiset().insert(x));
            assert(fb.push(x).to_multiset() =~= fb.to_multiset().insert(x));
        } else if pc(x) {
            assert(fa.push(x).to_multiset() =~= fa.to_multiset().insert(x));
            assert(fc.push(x).to_multiset() =~= fc.to_multiset().insert(x));
        }
    }
}

/// Over the same run, the scan over a list of distinct extensions collects,
/// as a multiset, what the one-extension scans over each of them collect put
/// together.
pub proof fn lemma_extension_scan_is_union(
    root: Seq<char>,
    exts: Seq<Seq<char>>,
    filter: Option<FilterView>,
    events: Seq<ScanEvent>,
)
    requires
        exts.no_duplicates(),
    ensures
        scan_run(initial_scan(root, Some(exts), filter), events).files.to_multiset()
            == single_extension_scans(root, exts, filter, events),
    decreases exts.len(),
{
    let all = scan_run(initial_scan(root, None, filter), events);
    lemma_extension_scan_restricts(root, exts, filter, events);
    if exts.len() == 0 {
        let p0 = |p: Seq<char>| matches_extension_spec(p, Some(exts));
        assert(all.files.filter(p0) =~= Seq::<Seq<char>>::empty()) by {
            broadcast use vstd::seq_lib::group_filter_ensures;

            if all.files.filter(p0).len() > 0 {
                assert(p0(all.files.filter(p0)[0]));
            }
        }
        lemma_empty_to_multiset(all.files.filter(p0));
    } else {
        let e0 = exts.drop_last();
        let e = exts.last();
        assert(e0.no_duplicates());
        assert(!e0.contains(e)) by {
            if e0.contains(e) {
                let k = choose|k: int| 0 <= k < e0.len() && e0[k] == e;
                assert(exts[k] == exts[exts.len() - 1]);
            }
        }
        lemma_extension_scan_is_union(root, e0, filter, events);
        lemma_extension_scan_restricts(root, e0, filter, events);
        lemma_extension_scan_restricts(root, seq![e], filter, events);
        assert(e0.push(e) =~= exts);
        lemma_extension_filter_split(all.files, e0, e);
    }
}

/// Over the same run without a resolved link, a filtered scan takes the same
/// directories as the unfiltered one and collects exactly the files of that
/// scan that the filter accepts, in the same order.
pub proof fn lemma_filtered_scan_restricts(
    root: Seq<char>,
    extensions: Option<Seq<Seq<char>>>,
    f: FilterView,
    events: Seq<ScanEvent>,
)
    requires
        follows_no_link(events),
    ensures
        ({
            let all = scan_run(initial_scan(root, extensions, None), events);
            let some = scan_run(initial_scan(root, extensions, Some(f)), events);
            &&& some.stack == all.stack
            &&& some.visited == all.visited
            &&& some.files == all.files.filter(|p: Seq<char>| spec_contains(f, p))
        }),
    decreases events.len(),
{
    let pred = |p: Seq<char>| spec_contains(f, p);
    if events.len() == 0 {
        assert(Seq::<Seq<char>>::empty().filter(pred) =~= Seq::<Seq<char>>::empty()) by {
            reveal_with_fuel(Seq::filter, 1);
        }
    } else {
        let e0 = events.drop_last();
        assert(follows_no_link(e0)) by {
            assert forall|i: int| 0 <= i < e0.len() implies !(#[trigger] e0[i] matches ScanEvent::Follow(_, Some(_))) by {
                assert(e0[i] == events[i]);
            }
        }
        lemma_filtered_scan_restricts(root, extensions, f, e0);
        lemma_run_keeps_config(initial_scan(root, extensions, None), e0);
        lemma_run_keeps_config(initial_scan(root, extensions, Some(f)), e0);
        let a = scan_run(initial_scan(root, extensions, None), e0);
        assert(events[events.len() - 1] == events.last());
        match events.last() {
            ScanEvent::Pop => {},
            ScanEvent::Visit(dir, path, kind) => {
                lemma_filter_push(a.files, path, pred);
            },
            ScanEvent::Follow(dir, link) => {},
        }
    }
}

/// Every file that a filtered scan collects over a run is accepted by the
/// filter, or is the target of a link in the run that the filter admits as a
/// resolved target.
pub proof fn lemma_filtered_scan_collects_admitted(
    root: Seq<char>,
    extensions: Option<Seq<Seq<char>>>,
    f: FilterView,
    events: Seq<ScanEvent>,
)
    ensures
        ({
            let s = scan_run(initial_scan(root, extensions, Some(f)), events);
            forall|i: int|
                0 <= i < s.files.len() ==> spec_contains(f, #[trigger] s.files[i])
                    || admitted_link_target(events, f, s.files[i])
        }),
    decreases events.len(),
{
    if events.len() > 0 {
        let e0 = events.drop_last();
        lemma_filtered_scan_collects_admitted(root, extensions, f, e0);
        lemma_run_keeps_config(initial_scan(root, extensions, Some(f)), e0);
        let a = scan_run(initial_scan(root, extensions, Some(f)), e0);
        let s = scan_run(initial_scan(root, extensions, Some(f)), events);
        let last = events.len() - 1;
        assert(events[last] == events.last());
        assert forall|i: int| 0 <= i < s.files.len() implies spec_contains(f, #[trigger] s.files[i])
            || admitted_link_target(events, f, s.files[i]) by {
            if i < a.files.len() {
                assert(s.files[i] == a.files[i]);
                if admitted_link_target(e0, f, a.files[i]) {
                    let k = choose|k: int|
                        0 <= k < e0.len() && match #[trigger] e0[k] {
                            ScanEvent::Follow(_, Some(l)) => l.target@ == a.files[i]
                                && spec_contains_resolved(
                                f,
                                Some(a.files[i]),
                                l.canonical_roots@.map_values(|c: Option<String>| opt_text(c)),
                            ),
                            _ => false,
                        };
                    assert(events[k] == e0[k]);
                }
            } else {
                match events.last() {
                    ScanEvent::Visit(dir, path, kind) => {},
                    ScanEvent::Follow(dir, link) => {
                        assert(events[last] matches ScanEvent::Follow(_, Some(_)));
                    },
                    ScanEvent::Pop => {},
                }
            }
        }
    }
}

/// What every state of a scan satisfies: each collected file has one of the
/// extensions, and the link target directories entered are pairwise different
/// paths.
pub open spec fn scan_ok(s: ScanView) -> bool {
    &&& forall|i: int|
        0 <= i < s.files.len() ==> matches_extension_spec(#[trigger] s.files[i], s.extensions)
    &&& distinct_paths(s.visited)
}

/// A path is among a list when it equals, component by component, any of
/// its entries, wherever that entry stands.
pub proof fn lemma_path_among_any(list: Seq<Seq<char>>, p: Seq<char>, i: int)
    requires
        0 <= i < list.len(),
        parse_path(list[i]) == parse_path(p),
    ensures
        path_among(list, p),
{
}

/// A link whose target is, component by component, one of the link
/// ancestors of the directory that holds it is never entered: the scan is
/// left as it was. The ancestors of a directory entered through a link hold
/// every ancestor of the directory that held the link, the canonical form of
/// that directory where it is known, and the target itself.
pub proof fn lemma_link_to_ancestor_not_entered(s: ScanView, dir: PendingView, l: LinkTarget)
    ensures
        path_among(dir.ancestors, l.target@) ==> after_link(s, dir, Some(l)).stack == s.stack
            && after_link(s, dir, Some(l)).visited == s.visited,
        ({
            let s2 = after_link(s, dir, Some(l));
            s2.stack.len() > s.stack.len() ==> {
                let top = s2.stack.last();
                &&& s2.stack == s.stack.push(top)
                &&& top.path == l.target@
                &&& path_among(top.ancestors, l.target@)
                &&& (forall|a: int|
                    0 <= a < dir.ancestors.len() ==> path_among(
                        top.ancestors,
                        #[trigger] dir.ancestors[a],
                    ))
                &&& (l.current_dir matches Some(c) ==> path_among(top.ancestors, c@))
            }
        }),
{
    let s2 = after_link(s, dir, Some(l));
    if s2.stack.len() > s.stack.len() {
        let anc = link_ancestors(dir, l);
        assert(s2.stack.last().ancestors == anc);
        assert(anc[anc.len() - 1] == l.target@);
        assert forall|a: int| 0 <= a < dir.ancestors.len() implies path_among(
            anc,
            #[trigger] dir.ancestors[a],
        ) by {
            assert(anc[a] == dir.ancestors[a]);
        }
        if let Some(c) = l.current_dir {
            assert(anc[dir.ancestors.len() as int] == c@);
        }
    }
}

/// An ordinary directory found in a listing is queued with the link
/// ancestors of the directory that holds it, so no link below it leads back
/// into a directory already entered through a link on the way.
pub proof fn lemma_directory_keeps_link_ancestors(s: ScanView, dir: PendingView, path: Seq<char>)
    ensures
        after_visit(s, dir, path, EntryKind::Directory).stack == s.stack.push(
            PendingView { path: path, ancestors: dir.ancestors },
        ),
        after_visit(s, dir, path, EntryKind::Directory).files == s.files,
        after_visit(s, dir, path, EntryKind::Directory).visited == s.visited,
{
}

/// Following a link enters its target directory at most once: a directory is
/// queued through a link only when no earlier link led to the same path, the
/// path is then recorded as entered, and the queued directory counts itself
/// among its link ancestors, so no link below it leads back into it.
pub proof fn lemma_link_enters_target_once(s: ScanView, dir: PendingView, link: Option<LinkTarget>)
    requires
        scan_ok(s),
    ensures
        ({
            let s2 = after_link(s, dir, link);
            &&& s2.stack.len() <= s.stack.len() + 1
            &&& if s2.stack.len() == s.stack.len() + 1 {
                let p = s2.stack.last().path;
                &&& !path_among(s.visited, p)
                &&& s2.visited == s.visited.push(p)
                &&& path_among(s2.stack.last().ancestors, p)
                &&& distinct_paths(s2.visited)
            } else {
                s2.visited == s.visited
            }
        }),
{
    let s2 = after_link(s, dir, link);
    if s2.stack.len() == s.stack.len() + 1 {
        let l = link->0;
        let p = l.target@;
        let anc = link_ancestors(dir, l);
        assert(anc[anc.len() - 1] == p);
        assert(path_among(anc, p));
        assert forall|i: int, j: int| 0 <= i < j < s2.visited.len() implies parse_path(
            #[trigger] s2.visited[i],
        ) != parse_path(#[trigger] s2.visited[j]) by {
            if j == s2.visited.len() - 1 {
                assert(s2.visited[i] == s.visited[i]);
            } else {
                assert(s2.visited[i] == s.visited[i]);
                assert(s2.visited[j] == s.visited[j]);
            }
        }
    }
}

/// A scan of a directory tree in progress.
pub struct FileScan {
    stack: Vec<PendingDir>,
    visited: Vec<String>,
    files: Vec<String>,
    extensions: Option<Vec<String>>,
    filter: Option<Pathfilter>,
}

impl View for FileScan {
    type V = ScanView;

    closed spec fn view(&self) -> ScanView {
        ScanView {
            stack: self.stack@.map_values(|d: PendingDir| d@),
            visited: strs_view(self.visited@),
            files: strs_view(self.files@),
            extensions: match self.extensions {
                Some(v) => Some(strs_view(v@)),
                None => None,
            },
            filter: match self.filter {
                Some(f) => Some(f@),
                None => None,
            },
        }
    }
}

/// A copy of a list of strings.
pub fn clone_strings(v: &Vec<String>) -> (r: Vec<String>)
    ensures
        strs_view(r@) == strs_view(v@),
{
    let mut out: Vec<String> = Vec::new();
    let mut i: usize = 0;
    while i < v.len()
        invariant
            i <= v.len(),
            out.len() == i,
            forall|j: int| 0 <= j < i ==> #[trigger] out@[j]@ == v@[j]@,
        decreases v.len() - i,
    {
        out.push(v[i].clone());
        i = i + 1;
    }
    assert(strs_view(out@) =~= strs_view(v@));
    out
}

/// Whether some path among `list` equals `p`, component by component.
pub fn path_among_exec(list: &Vec<String>, p: &str) -> (r: bool)
    ensures
        r == path_among(strs_view(list@), p@),
{
    let ghost v = strs_view(list@);
    let pc = components(p);
    let mut i: usize = 0;
    while i < list.len()
        invariant
            v == strs_view(list@),
            i <= list.len(),
            view_comps(pc@) == parse_path(p@),
            forall|j: int| 0 <= j < i ==> parse_path(#[trigger] v[j]) != parse_path(p@),
        decreases list.len() - i,
    {
        let c = components(list[i].as_str());
        if components_eq(&c, &pc) {
            assert(parse_path(v[i as int]) == parse_path(p@));
            return true;
        }
        i = i + 1;
    }
    false
}

impl FileScan {
    /// Every state of a scan satisfies `scan_ok`.
    #[verifier::type_invariant]
    closed spec fn inv(&self) -> bool {
        scan_ok(self@)
    }

    fn push_pending(&mut self, d: PendingDir)
        ensures
            final(self)@ == (ScanView { stack: old(self)@.stack.push(d@), ..old(self)@ }),
    {
        proof {
            use_type_invariant(&*self);
        }
        let ghost before = self@;
        let mut v: Vec<PendingDir> = Vec::new();
        std::mem::swap(&mut v, &mut self.stack);
        v.push(d);
        std::mem::swap(&mut v, &mut self.stack);
        assert(self@.stack =~= before.stack.push(d@));
    }

    fn pop_pending(&mut self) -> (r: Option<PendingDir>)
        ensures
            match r {
                Some(d) => old(self)@.stack.len() > 0 && d@ == old(self)@.stack.last(),
                None => old(self)@.stack.len() == 0,
            },
            final(self)@ == after_pop(old(self)@),
    {
        proof {
            use_type_invariant(&*self);
        }
        let ghost before = self@;
        let mut v: Vec<PendingDir> = Vec::new();
        std::mem::swap(&mut v, &mut self.stack);
        let r = v.pop();
        std::mem::swap(&mut v, &mut self.stack);
        assert(self@.stack =~= (if before.stack.len() > 0 {
            before.stack.drop_last()
        } else {
            before.stack
        }));
        r
    }

    fn push_file(&mut self, p: String)
        requires
            matches_extension_spec(p@, old(self)@.extensions),
        ensures
            final(self)@ == (ScanView { files: old(self)@.files.push(p@), ..old(self)@ }),
    {
        proof {
            use_type_invariant(&*self);
        }
        let ghost before = self@;
        let mut v: Vec<String> = Vec::new();
        std::mem::swap(&mut v, &mut self.files);
        v.push(p);
        assert(strs_view(v@) =~= before.files.push(p@));
        std::mem::swap(&mut v, &mut self.files);
        assert(self@.files =~= before.files.push(p@));
    }

    fn push_visited(&mut self, p: String)
        requires
            !path_among(old(self)@.visited, p@),
        ensures
            final(self)@ == (ScanView { visited: old(self)@.visited.push(p@), ..old(self)@ }),
    {
        proof {
            use_type_invariant(&*self);
        }
        let ghost before = self@;
        let mut v: Vec<String> = Vec::new();
        std::mem::swap(&mut v, &mut self.visited);
        v.push(p);
        assert(strs_view(v@) =~= before.visited.push(p@));
        assert(distinct_paths(before.visited.push(p@))) by {
            let nv = before.visited.push(p@);
            assert forall|i: int, j: int| 0 <= i < j < nv.len() implies parse_path(
                #[trigger] nv[i],
            ) != parse_path(#[trigger] nv[j]) by {
                if j == nv.len() - 1 {
                    assert(nv[i] == before.visited[i]);
                } else {
                    assert(nv[i] == before.visited[i]);
                    assert(nv[j] == before.visited[j]);
                }
            }
        }
        std::mem::swap(&mut v, &mut self.visited);
        assert(self@.visited =~= before.visited.push(p@));
    }

    fn start(root: &str, extensions: Option<Vec<String>>, filter: Option<Pathfilter>) -> (r: FileScan)
        ensures
            r@.stack == seq![PendingView { path: root@, ancestors: seq![] }],
            r@.visited == Seq::<Seq<char>>::empty(),
            r@.files == Seq::<Seq<char>>::empty(),
            r@.extensions == (match extensions {
                Some(v) => Some(strs_view(v@)),
                None => None,
            }),
            r@.filter == (match filter {
                Some(f) => Some(f@),
                None => None,
            }),
            scan_ok(r@),
    {
        let mut stack: Vec<PendingDir> = Vec::new();
        let ancestors: Vec<String> = Vec::new();
        assert(strs_view(ancestors@) =~= Seq::<Seq<char>>::empty());
        let first = PendingDir { path: root.to_owned(), symlink_ancestors: ancestors };
        assert(first@ == PendingView { path: root@, ancestors: seq![] });
        stack.push(first);
        let r = FileScan { stack, visited: Vec::new(), files: Vec::new(), extensions, filter };
        assert(r@.stack =~= seq![PendingView { path: root@, ancestors: seq![] }]);
        assert(r@.visited =~= Seq::<Seq<char>>::empty());
        assert(r@.files =~= Seq::<Seq<char>>::empty());
        r
    }

    /// Takes the next directory to list, the one pushed last.
    pub fn next_dir(&mut self) -> (r: Option<PendingDir>)
        ensures
            match r {
                Some(d) => {
                    &&& old(self)@.stack.len() > 0
                    &&& d@ == old(self)@.stack.last()
                },
                None => old(self)@.stack.len() == 0,
            },
            final(self)@ == after_pop(old(self)@),
            scan_ok(final(self)@),
    {
        let r = self.pop_pending();
        proof {
            use_type_invariant(&*self);
        }
        r
    }

    /// Visits one entry of the directory `dir`: a directory is queued with
    /// the same link ancestors, a file is collected where the filter and the
    /// extensions admit it, and a symbolic link asks to be resolved.
    pub fn visit_entry(&mut self, dir: &PendingDir, path: String, kind: EntryKind) -> (r: EntryStep)
        ensures
            final(self)@ == after_visit(old(self)@, dir@, path@, kind),
            r is ResolveLink <==> kind is Symlink,
            scan_ok(final(self)@),
    {
        let ghost before = self@;
        match kind {
            EntryKind::Directory => {
                let ancestors = clone_strings(&dir.symlink_ancestors);
                let d = PendingDir { path, symlink_ancestors: ancestors };
                assert(d@ == PendingView { path: path@, ancestors: dir@.ancestors });
                self.push_pending(d);
                proof {
                    use_type_invariant(&*self);
                }
                EntryStep::Done
            },
            EntryKind::File => {
                let allowed = match &self.filter {
                    Some(f) => f.contains(path.as_str()),
                    None => true,
                };
                if allowed && matches_extension(path.as_str(), &self.extensions) {
                    self.push_file(path);
                }
                proof {
                    use_type_invariant(&*self);
                }
                EntryStep::Done
            },
            EntryKind::Symlink => {
                proof {
                    use_type_invariant(&*self);
                }
                EntryStep::ResolveLink
            },
            EntryKind::Other => {
                proof {
                    use_type_invariant(&*self);
                }
                EntryStep::Done
            },
        }
    }

    /// Follows a resolved symbolic link found in `dir` (`None` where it could
    /// not be resolved): a target the filter admits is collected if it is a
    /// file with one of the extensions, or queued if it is a directory that
    /// is neither a link ancestor of `dir` nor already entered.
    pub fn follow_link(&mut self, dir: &PendingDir, link: Option<LinkTarget>)
        ensures
            final(self)@ == after_link(old(self)@, dir@, link),
            scan_ok(final(self)@),
    {
        proof {
            use_type_invariant(&*self);
        }
        let ghost before = self@;
        let ghost link_copy = link;
        let l = match link {
            None => {
                return ;
            },
            Some(l) => l,
        };
        let allowed = match &self.filter {
            Some(f) => f.contains_resolved(Some(l.target.as_str()), &l.canonical_roots),
            None => true,
        };
        if !allowed {
            return ;
        }
        match l.kind {
            TargetKind::File => {
                if matches_extension(l.target.as_str(), &self.extensions) {
                    self.push_file(l.target);
                }
            },
            TargetKind::Directory => {
                if !path_among_exec(&dir.symlink_ancestors, l.target.as_str())
                    && !path_among_exec(&self.visited, l.target.as_str()) {
                    let mut ancestors = clone_strings(&dir.symlink_ancestors);
                    match l.current_dir {
                        Some(c) => ancestors.push(c),
                        None => {},
                    }
                    ancestors.push(l.target.clone());
                    assert(strs_view(ancestors@) =~= link_ancestors(dir@, link_copy->0));
                    self.push_visited(l.target.clone());
                    let d = PendingDir { path: l.target, symlink_ancestors: ancestors };
                    assert(d@ == PendingView {
                        path: link_copy->0.target@,
                        ancestors: link_ancestors(dir@, link_copy->0),
                    });
                    self.push_pending(d);
                }
            },
            TargetKind::Other => {},
        }
        proof {
            use_type_invariant(&*self);
        }
    }

    /// The files collected so far, in the order they were found.
    pub fn into_files(self) -> (r: Vec<String>)
        ensures
            strs_view(r@) == self@.files,
    {
        self.files
    }
}

/// The state a scan of `root` starts in.
pub open spec fn initial_scan(
    root: Seq<char>,
    extensions: Option<Seq<Seq<char>>>,
    filter: Option<FilterView>,
) -> ScanView {
    ScanView {
        stack: seq![PendingView { path: root, ancestors: seq![] }],
        visited: seq![],
        files: seq![],
        extensions,
        filter,
    }
}

fn owned_strings(v: &[&str]) -> (r: Vec<String>)
    ensures
        strs_view(r@) == v@.map_values(|e: &str| e@),
{
    let mut out: Vec<String> = Vec::new();
    let mut i: usize = 0;
    while i < v.len()
        invariant
            i <= v.len(),
            out.len() == i,
            forall|j: int| 0 <= j < i ==> #[trigger] out@[j]@ == v@[j]@,
        decreases v.len() - i,
    {
        out.push(v[i].to_owned());
        i = i + 1;
    }
    assert(strs_view(out@) =~= v@.map_values(|e: &str| e@));
    out
}

fn single_string(e: &str) -> (r: Vec<String>)
    ensures
        strs_view(r@) == seq![e@],
{
    let mut out: Vec<String> = Vec::new();
    out.push(e.to_owned());
    assert(strs_view(out@) =~= seq![e@]);
    out
}

/// A scan that collects every regular file below `root`, following symbolic
/// links; broken links are skipped.
pub fn collect_files_all(root: &str) -> (r: FileScan)
    ensures
        r@ == initial_scan(root@, None, None),
        scan_ok(r@),
{
    FileScan::start(root, None, None)
}

/// A scan that collects the files below `root` with the extension `extension`,
/// following symbolic links.
pub fn collect_files_fast(root: &str, extension: &str) -> (r: FileScan)
    ensures
        r@ == initial_scan(root@, Some(seq![extension@]), None),
        scan_ok(r@),
{
    FileScan::start(root, Some(single_string(extension)), None)
}

/// A scan that collects the files below `root` with any of the extensions,
/// following symbolic links.
pub fn collect_files_fast_multi(root: &str, extensions: &[&str]) -> (r: FileScan)
    ensures
        r@ == initial_scan(root@, Some(extensions@.map_values(|e: &str| e@)), None),
        scan_ok(r@),
{
    FileScan::start(root, Some(owned_strings(extensions)), None)
}

/// A scan that collects every file below `root` that `filter` admits, checking
/// ordinary paths and canonical link targets.
pub fn collect_files_all_filtered(root: &str, filter: &Pathfilter) -> (r: FileScan)
    ensures
        r@ == initial_scan(root@, None, Some(filter@)),
        scan_ok(r@),
{
    FileScan::start(root, None, Some(filter.duplicate()))
}

/// A scan that collects the files below `root` with the extension `extension`
/// that `filter` admits, checking ordinary paths and canonical link targets.
pub fn collect_files_filtered(root: &str, extension: &str, filter: &Pathfilter) -> (r: FileScan)
    ensures
        r@ == initial_scan(root@, Some(seq![extension@]), Some(filter@)),
        scan_ok(r@),
{
    FileScan::start(root, Some(single_string(extension)), Some(filter.duplicate()))
}

/// A scan that collects the files below `root` with any of the extensions that
/// `filter` admits, checking ordinary paths and canonical link targets.
pub fn collect_files_multi_filtered(root: &str, extensions: &[&str], filter: &Pathfilter) -> (r:
    FileScan)
    ensures
        r@ == initial_scan(root@, Some(extensions@.map_values(|e: &str| e@)), Some(filter@)),
        scan_ok(r@),
{
    FileScan::start(root, Some(owned_strings(extensions)), Some(filter.duplicate()))
}

} // verus!
