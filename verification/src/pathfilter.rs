//! Path filtering: whether a path may be read or written, judged against a
//! list of allowed roots and a list of blocked directory names.
use vstd::prelude::*;
use crate::components::{
    components, duplicate_components, has_prefix, opt_str_text, opt_text, parse_path, render,
    starts_with_components, view_comps, wf_comps, Comp, Component,
};
use crate::pathutils::{
    home_comps, is_absolute_comps, normalize_comps, normalize_components, normalize_fold, normalize_path,
    normalized_text, lemma_normalized_text_components,
};

verus! {

/// Directory names that are never allowed, matched as whole components.
pub open spec fn blocked_name(n: Seq<char>) -> bool {
    ||| n == "buildscripts"@
    ||| n == "build-scripts"@
    ||| n == "common-scripts"@
    ||| n == "commonscripts"@
    ||| n == ".git"@
    ||| n == ".svn"@
    ||| n == ".hg"@
}

/// Whether some name component of `cs` is blocked.
pub open spec fn is_blocked_comps(cs: Seq<Comp>) -> bool {
    exists|i: int|
        0 <= i < cs.len() && match #[trigger] cs[i] {
            Comp::Normal(n) => blocked_name(n),
            _ => false,
        }
}

/// How many levels below its starting directory a relative walk ends: names
/// go one down, `..` one up.
pub open spec fn depth(cs: Seq<Comp>) -> int
    decreases cs.len(),
{
    if cs.len() == 0 {
        0
    } else {
        depth(cs.drop_last()) + match cs.last() {
            Comp::Normal(_) => 1int,
            Comp::ParentDir => -1int,
            _ => 0int,
        }
    }
}

/// Whether a relative walk along `cs` never climbs above its starting
/// directory and never jumps to the root.
pub open spec fn stays_within(cs: Seq<Comp>) -> bool {
    forall|k: int| 1 <= k <= cs.len() ==> #[trigger] prefix_within(cs, k)
}

/// The first `k` steps of `cs` end at or below the starting directory, and
/// the `k`-th is not the root.
pub open spec fn prefix_within(cs: Seq<Comp>, k: int) -> bool {
    !(cs[k - 1] is RootDir) && depth(cs.take(k)) >= 0
}

/// The model of a filter: its roots, normalized, the texts of those roots,
/// and the home directory that stands for a leading `~`.
pub struct FilterView {
    pub roots: Seq<Seq<Comp>>,
    pub texts: Seq<Seq<char>>,
    pub home: Option<Seq<char>>,
}

/// The normalized components of `name` under the filter's home directory.
pub open spec fn filter_normalized(v: FilterView, name: Seq<char>) -> Seq<Comp> {
    normalize_comps(parse_path(name), home_comps(v.home))
}

/// Whether `name` lies in the allowed area of the first `hi` roots: not
/// blocked, and, if absolute, below one of those roots, or, if relative, never
/// climbing above its starting directory.
pub open spec fn allowed_among(v: FilterView, name: Seq<char>, hi: int) -> bool {
    let n = filter_normalized(v, name);
    &&& 0 < hi <= v.roots.len()
    &&& !is_blocked_comps(n)
    &&& if is_absolute_comps(parse_path(name)) {
        exists|i: int| 0 <= i < hi && has_prefix(n, #[trigger] v.roots[i])
    } else {
        stays_within(n)
    }
}

/// Whether `name` may be read: it lies below some root.
pub open spec fn spec_contains(v: FilterView, name: Seq<char>) -> bool {
    allowed_among(v, name, v.roots.len() as int)
}

/// Whether `name` may be written: it lies below the first root.
pub open spec fn spec_can_write(v: FilterView, name: Seq<char>) -> bool {
    allowed_among(v, name, 1)
}

/// The root that a resolved target is compared with: the canonical form of the
/// root where one was found, else the text of the root normalized once more.
pub open spec fn resolved_base(v: FilterView, canonical: Seq<Option<Seq<char>>>, i: int) -> Seq<
    Comp,
> {
    if i < canonical.len() && canonical[i] is Some {
        parse_path(canonical[i]->0)
    } else {
        parse_path(normalized_text(v.texts[i], v.home))
    }
}

/// Whether a resolved target lies below some root.
pub open spec fn spec_contains_resolved(
    v: FilterView,
    resolved: Option<Seq<char>>,
    canonical: Seq<Option<Seq<char>>>,
) -> bool {
    match resolved {
        None => false,
        Some(t) => {
            &&& !is_blocked_comps(parse_path(t))
            &&& exists|i: int|
                0 <= i < v.roots.len() && has_prefix(
                    parse_path(t),
                    #[trigger] resolved_base(v, canonical, i),
                )
        },
    }
}

proof fn lemma_walk_shape(base: Seq<Comp>, path: Seq<Comp>)
    requires
        stays_within(path),
    ensures
        normalize_fold(base, path).len() == base.len() + depth(path),
        normalize_fold(base, path).take(base.len() as int) == base,
        forall|i: int|
            base.len() <= i < normalize_fold(base, path).len() ==> #[trigger] normalize_fold(
                base,
                path,
            )[i] is Normal,
    decreases path.len(),
{
    if path.len() > 0 {
        let p0 = path.drop_last();
        assert(stays_within(p0)) by {
            assert forall|k: int| 1 <= k <= p0.len() implies #[trigger] prefix_within(p0, k) by {
                assert(prefix_within(path, k));
                assert(p0.take(k) =~= path.take(k));
                assert(p0[k - 1] == path[k - 1]);
            }
        }
        lemma_walk_shape(base, p0);
        if p0.len() > 0 {
            assert(prefix_within(p0, p0.len() as int));
            assert(p0.take(p0.len() as int) =~= p0);
        }
        assert(depth(p0) >= 0);
        let out = normalize_fold(base, p0);
        let c = path.last();
        assert(prefix_within(path, path.len() as int));
        assert(path.take(path.len() as int) =~= path);
        assert(path[path.len() - 1] == c);
        assert(path =~= p0.push(c));
        let r = normalize_fold(base, path);
        match c {
            Comp::ParentDir => {
                assert(depth(p0) >= 1);
                assert(out[out.len() - 1] is Normal);
                assert(r == out.drop_last());
                assert(r.len() >= base.len());
                assert forall|j: int| 0 <= j < base.len() implies r.take(base.len() as int)[j]
                    == base[j] by {
                    assert(r[j] == out[j]);
                    assert(out.take(base.len() as int)[j] == out[j]);
                }
                assert(r.take(base.len() as int) =~= base);
                assert forall|i: int| base.len() <= i < r.len() implies #[trigger] r[i] is Normal by {
                    assert(r[i] == out[i]);
                }
            },
            Comp::Normal(_) => {
                assert(r == out.push(c));
                assert forall|j: int| 0 <= j < base.len() implies r.take(base.len() as int)[j]
                    == base[j] by {
                    assert(r[j] == out[j]);
                    assert(out.take(base.len() as int)[j] == out[j]);
                }
                assert(r.take(base.len() as int) =~= base);
                assert forall|i: int| base.len() <= i < r.len() implies #[trigger] r[i] is Normal by {
                    if i < out.len() {
                        assert(r[i] == out[i]);
                    }
                }
            },
            Comp::CurDir => {},
            Comp::RootDir => {},
        }
    } else {
        assert(base.take(base.len() as int) =~= base);
    }
}

/// A relative walk that `stays_within` allows, resolved against any base
/// directory, ends below that base: `..` only ever removes names that the
/// walk itself added.
pub proof fn lemma_walk_stays_below(base: Seq<Comp>, path: Seq<Comp>)
    requires
        stays_within(path),
    ensures
        has_prefix(normalize_fold(base, path), base),
{
    lemma_walk_shape(base, path);
    if path.len() > 0 {
        assert(prefix_within(path, path.len() as int));
        assert(path.take(path.len() as int) =~= path);
    }
}

/// A relative name that the filter accepts for reading, resolved lexically
/// against any of its roots, stays below that root.
pub proof fn lemma_contains_relative_stays_below_roots(v: FilterView, name: Seq<char>)
    requires
        spec_contains(v, name),
        !is_absolute_comps(parse_path(name)),
    ensures
        forall|i: int|
            0 <= i < v.roots.len() ==> has_prefix(
                normalize_fold(#[trigger] v.roots[i], filter_normalized(v, name)),
                v.roots[i],
            ),
{
    assert forall|i: int| 0 <= i < v.roots.len() implies has_prefix(
        normalize_fold(#[trigger] v.roots[i], filter_normalized(v, name)),
        v.roots[i],
    ) by {
        lemma_walk_stays_below(v.roots[i], filter_normalized(v, name));
    }
}

/// A path that may be written may also be read.
pub proof fn lemma_can_write_implies_contains(v: FilterView, name: Seq<char>)
    requires
        spec_can_write(v, name),
    ensures
        spec_contains(v, name),
{
    if is_absolute_comps(parse_path(name)) {
        let n = filter_normalized(v, name);
        let i = choose|i: int| 0 <= i < 1 && has_prefix(n, #[trigger] v.roots[i]);
        assert(0 <= i < v.roots.len() && has_prefix(n, v.roots[i]));
    }
}

/// No path that the filter accepts, for reading or writing, has a blocked
/// name among its normalized components.
pub proof fn lemma_accepted_paths_are_unblocked(v: FilterView, name: Seq<char>)
    requires
        spec_contains(v, name) || spec_can_write(v, name),
    ensures
        !is_blocked_comps(filter_normalized(v, name)),
{
}

/// A filter without roots accepts nothing.
pub proof fn lemma_empty_filter_accepts_nothing(v: FilterView, name: Seq<char>)
    requires
        v.roots.len() == 0,
    ensures
        !spec_contains(v, name),
        !spec_can_write(v, name),
{
}

/// Whether one of the components of `cs` is a name on the blocked list.
pub open spec fn has_blocked_component(cs: Seq<Comp>, j: int) -> bool {
    0 <= j < cs.len() && (cs[j] matches Comp::Normal(x) && blocked_name(x))
}

/// The directory names on the blocked list, wherever they stand among the
/// normalized components, make a path unreadable and unwritable.
pub proof fn lemma_listed_names_refused(v: FilterView, name: Seq<char>, j: int)
    requires
        0 <= j < filter_normalized(v, name).len(),
        ({
            let c = filter_normalized(v, name)[j];
            ||| c == Comp::Normal("buildscripts"@)
            ||| c == Comp::Normal("build-scripts"@)
            ||| c == Comp::Normal("common-scripts"@)
            ||| c == Comp::Normal("commonscripts"@)
            ||| c == Comp::Normal(".git"@)
            ||| c == Comp::Normal(".svn"@)
            ||| c == Comp::Normal(".hg"@)
        }),
    ensures
        !spec_contains(v, name),
        !spec_can_write(v, name),
{
    lemma_blocked_component_refused(v, name, j);
}

/// A relative walk made only of names never leaves its start, and one that
/// begins by climbing (`..`) or jumps to the root leaves it at once.
pub proof fn lemma_stays_within_law(cs: Seq<Comp>)
    ensures
        (forall|j: int| 0 <= j < cs.len() ==> #[trigger] cs[j] is Normal) ==> stays_within(cs),
        (cs.len() > 0 && (cs[0] == Comp::ParentDir || cs[0] == Comp::RootDir)) ==> !stays_within(cs),
{
    if forall|j: int| 0 <= j < cs.len() ==> #[trigger] cs[j] is Normal {
        assert forall|k: int| 1 <= k <= cs.len() implies #[trigger] prefix_within(cs, k) by {
            lemma_depth_of_names(cs.take(k));
            assert(cs.take(k)[k - 1] == cs[k - 1]);
        }
    }
    if cs.len() > 0 && (cs[0] == Comp::ParentDir || cs[0] == Comp::RootDir) {
        let t = cs.take(1);
        assert(t.drop_last() =~= Seq::<Comp>::empty());
        assert(t.last() == cs[0]);
        assert(depth(t.drop_last()) == 0);
        if cs[0] == Comp::ParentDir {
            assert(depth(t) == -1);
        }
        assert(!prefix_within(cs, 1));
    }
}

proof fn lemma_depth_of_names(cs: Seq<Comp>)
    requires
        forall|j: int| 0 <= j < cs.len() ==> #[trigger] cs[j] is Normal,
    ensures
        depth(cs) == cs.len(),
    decreases cs.len(),
{
    if cs.len() > 0 {
        let c0 = cs.drop_last();
        assert forall|j: int| 0 <= j < c0.len() implies #[trigger] c0[j] is Normal by {
            assert(c0[j] == cs[j]);
        }
        lemma_depth_of_names(c0);
        assert(cs[cs.len() - 1] == cs.last());
    }
}

/// A path with a blocked directory name anywhere among its normalized
/// components, the last one included, may be neither read nor written.
pub proof fn lemma_blocked_component_refused(v: FilterView, name: Seq<char>, j: int)
    requires
        has_blocked_component(filter_normalized(v, name), j),
    ensures
        !spec_contains(v, name),
        !spec_can_write(v, name),
{
    let n = filter_normalized(v, name);
    assert(match n[j] {
        Comp::Normal(x) => blocked_name(x),
        _ => false,
    });
}

/// An absolute path whose normalized components have no blocked name and
/// begin with those of some root, whichever root it is, may be read; below
/// the first root it may also be written.
pub proof fn lemma_below_any_root_admitted(v: FilterView, name: Seq<char>, i: int)
    requires
        is_absolute_comps(parse_path(name)),
        0 <= i < v.roots.len(),
        has_prefix(filter_normalized(v, name), v.roots[i]),
        forall|j: int| !has_blocked_component(filter_normalized(v, name), j),
    ensures
        spec_contains(v, name),
        i == 0 ==> spec_can_write(v, name),
{
    let n = filter_normalized(v, name);
    assert(!is_blocked_comps(n)) by {
        if is_blocked_comps(n) {
            let j = choose|j: int|
                0 <= j < n.len() && match #[trigger] n[j] {
                    Comp::Normal(x) => blocked_name(x),
                    _ => false,
                };
            assert(has_blocked_component(n, j));
        }
    }
}

/// A relative path whose normalized walk has no blocked name and never
/// climbs above its start may be read under any filter with a root, and
/// written.
pub proof fn lemma_relative_within_admitted(v: FilterView, name: Seq<char>)
    requires
        !is_absolute_comps(parse_path(name)),
        v.roots.len() > 0,
        stays_within(filter_normalized(v, name)),
        forall|j: int| !has_blocked_component(filter_normalized(v, name), j),
    ensures
        spec_contains(v, name),
        spec_can_write(v, name),
{
    let n = filter_normalized(v, name);
    assert(!is_blocked_comps(n)) by {
        if is_blocked_comps(n) {
            let j = choose|j: int|
                0 <= j < n.len() && match #[trigger] n[j] {
                    Comp::Normal(x) => blocked_name(x),
                    _ => false,
                };
            assert(has_blocked_component(n, j));
        }
    }
}

/// A resolved link target is admitted exactly when it has no blocked name
/// and lies below some root, whichever root that is; a target that did not
/// resolve is refused.
pub proof fn lemma_resolved_target_admitted(
    v: FilterView,
    t: Seq<char>,
    canonical: Seq<Option<Seq<char>>>,
    i: int,
)
    requires
        0 <= i < v.roots.len(),
        has_prefix(parse_path(t), resolved_base(v, canonical, i)),
        forall|j: int| !has_blocked_component(parse_path(t), j),
    ensures
        spec_contains_resolved(v, Some(t), canonical),
        !spec_contains_resolved(v, None, canonical),
{
    let n = parse_path(t);
    assert(!is_blocked_comps(n)) by {
        if is_blocked_comps(n) {
            let j = choose|j: int|
                0 <= j < n.len() && match #[trigger] n[j] {
                    Comp::Normal(x) => blocked_name(x),
                    _ => false,
                };
            assert(has_blocked_component(n, j));
        }
    }
}

/// A resolved target with a blocked name among its components is refused,
/// whatever root it lies below.
pub proof fn lemma_blocked_target_refused(
    v: FilterView,
    t: Seq<char>,
    canonical: Seq<Option<Seq<char>>>,
    j: int,
)
    requires
        has_blocked_component(parse_path(t), j),
    ensures
        !spec_contains_resolved(v, Some(t), canonical),
{
    let n = parse_path(t);
    assert(match n[j] {
        Comp::Normal(x) => blocked_name(x),
        _ => false,
    });
}

/// What `{:?}` shows of a path.
pub uninterp spec fn path_debug_text(p: Seq<char>) -> Seq<char>;

/// Formats a path with `Debug` (`<Path as Debug>::fmt`, through `format!`):
/// the result is named, as a function of the path text alone.
#[verifier::external_body]
fn path_debug(p: &str) -> (r: String)
    ensures
        r@ == path_debug_text(p@),
{
    format!("{:?}", std::path::Path::new(p))
}

/// Items joined by `, `.
pub open spec fn join_comma(items: Seq<Seq<char>>) -> Seq<char>
    decreases items.len(),
{
    if items.len() == 0 {
        seq![]
    } else if items.len() == 1 {
        items[0]
    } else {
        join_comma(items.drop_last()) + ", "@ + items.last()
    }
}

/// What a filter shows of itself: its roots, as a list of paths.
pub open spec fn filter_display(v: FilterView) -> Seq<char> {
    "["@ + join_comma(v.texts.map_values(|t: Seq<char>| path_debug_text(t))) + "]"@
}

/// A filter that decides whether paths may be read or written.
///
/// Relative paths are interpreted relative to the configured allowed roots, not
/// relative to the process working directory.
#[derive(Debug)]
pub struct Pathfilter {
    roots: Vec<Vec<Component>>,
    texts: Vec<String>,
    home: Option<String>,
}

impl View for Pathfilter {
    type V = FilterView;

    closed spec fn view(&self) -> FilterView {
        FilterView {
            roots: self.roots@.map_values(|r: Vec<Component>| view_comps(r@)),
            texts: self.texts@.map_values(|t: String| t@),
            home: opt_text(self.home),
        }
    }
}

fn blocked_name_exec(n: &String) -> (r: bool)
    ensures
        r == blocked_name(n@),
{
    n.eq(&String::from_str("buildscripts")) || n.eq(&String::from_str("build-scripts")) || n.eq(
        &String::from_str("common-scripts"),
    ) || n.eq(&String::from_str("commonscripts")) || n.eq(&String::from_str(".git")) || n.eq(
        &String::from_str(".svn"),
    ) || n.eq(&String::from_str(".hg"))
}

/// Whether some name component is blocked; matching whole components avoids
/// false positives such as `my.git-data` or `buildscripts-old`.
fn is_blocked(cs: &Vec<Component>) -> (r: bool)
    ensures
        r == is_blocked_comps(view_comps(cs@)),
{
    let ghost v = view_comps(cs@);
    let mut i: usize = 0;
    while i < cs.len()
        invariant
            v == view_comps(cs@),
            i <= cs.len(),
            forall|j: int|
                0 <= j < i ==> !match #[trigger] v[j] {
                    Comp::Normal(n) => blocked_name(n),
                    _ => false,
                },
        decreases cs.len() - i,
    {
        assert(v[i as int] == cs@[i as int]@);
        match &cs[i] {
            Component::Normal(n) => {
                if blocked_name_exec(n) {
                    return true;
                }
            },
            _ => {},
        }
        i = i + 1;
    }
    false
}

proof fn lemma_depth_push(cs: Seq<Comp>, c: Comp)
    ensures
        depth(cs.push(c)) == depth(cs) + match c {
            Comp::Normal(_) => 1int,
            Comp::ParentDir => -1int,
            _ => 0int,
        },
{
    assert(cs.push(c).drop_last() =~= cs);
}

/// Whether the relative path `cs` stays below the directory it starts from;
/// the depth is counted from that directory.
fn relative_path_stays_within(cs: &Vec<Component>) -> (r: bool)
    ensures
        r == stays_within(view_comps(cs@)),
{
    let ghost v = view_comps(cs@);
    let mut depth_now: usize = 0;
    let mut i: usize = 0;
    assert(v.take(0) =~= Seq::<Comp>::empty());
    while i < cs.len()
        invariant
            v == view_comps(cs@),
            i <= cs.len(),
            depth_now <= i,
            depth_now == depth(v.take(i as int)),
            forall|k: int| 1 <= k <= i ==> #[trigger] prefix_within(v, k),
        decreases cs.len() - i,
    {
        assert(v.take(i + 1) =~= v.take(i as int).push(v[i as int]));
        proof {
            lemma_depth_push(v.take(i as int), v[i as int]);
        }
        assert(v[i as int] == cs@[i as int]@);
        match &cs[i] {
            Component::ParentDir => {
                if depth_now == 0 {
                    assert(!prefix_within(v, i + 1));
                    return false;
                }
                depth_now = depth_now - 1;
            },
            Component::Normal(_) => {
                depth_now = depth_now + 1;
            },
            Component::CurDir => {},
            Component::RootDir => {
                assert(!prefix_within(v, i + 1));
                return false;
            },
        }
        assert(depth(v.take(i + 1)) >= 0);
        assert(!(v[i as int] is RootDir));
        assert(prefix_within(v, i + 1));
        i = i + 1;
    }
    assert(v.take(cs.len() as int) =~= v);
    true
}

impl Pathfilter {
    /// Every root is a well-formed component sequence, and each has its text.
    #[verifier::type_invariant]
    closed spec fn wf(&self) -> bool {
        &&& self.texts.len() == self.roots.len()
        &&& forall|i: int| 0 <= i < self.roots.len() ==> wf_comps(#[trigger] view_comps(self.roots@[i]@))
    }

    /// Creates a filter with the given allowed roots, each normalized
    /// lexically; `home` is the home directory that a leading `~` stands for.
    /// A root that normalizes to the empty path (`""` or `.`) is a prefix of
    /// every path.
    pub fn new(paths: Vec<String>, home: Option<String>) -> (r: Pathfilter)
        ensures
            r@.home == opt_text(home),
            r@.roots.len() == paths.len(),
            r@.texts.len() == paths.len(),
            forall|i: int|
                0 <= i < paths.len() ==> #[trigger] r@.roots[i] == normalize_comps(
                    parse_path(paths@[i]@),
                    home_comps(r@.home),
                ),
            forall|i: int|
                0 <= i < paths.len() ==> #[trigger] r@.texts[i] == normalized_text(
                    paths@[i]@,
                    r@.home,
                ),
            forall|i: int| 0 <= i < paths.len() ==> parse_path(#[trigger] r@.texts[i]) == r@.roots[i],
    {
        let mut roots: Vec<Vec<Component>> = Vec::new();
        let mut texts: Vec<String> = Vec::new();
        let mut i: usize = 0;
        let ghost hv = opt_text(home);
        while i < paths.len()
            invariant
                i <= paths.len(),
                roots.len() == i,
                texts.len() == i,
                hv == opt_text(home),
                forall|j: int|
                    0 <= j < i ==> #[trigger] view_comps(roots@[j]@) == normalize_comps(
                        parse_path(paths@[j]@),
                        home_comps(hv),
                    ) && wf_comps(view_comps(roots@[j]@)),
                forall|j: int| 0 <= j < i ==> #[trigger] texts@[j]@ == normalized_text(paths@[j]@, hv),
            decreases paths.len() - i,
        {
            let h = match &home {
                Some(h) => Some(h.as_str()),
                None => None,
            };
            let cs = components(paths[i].as_str());
            proof {
                crate::components::lemma_parse_wf(paths@[i as int]@);
            }
            let n = normalize_components(&cs, h);
            roots.push(n);
            texts.push(normalize_path(paths[i].as_str(), h));
            i = i + 1;
        }
        let r = Pathfilter { roots, texts, home };
        assert(r@.roots.len() == paths.len());
        assert forall|i: int| 0 <= i < paths.len() implies #[trigger] r@.roots[i] == normalize_comps(
            parse_path(paths@[i]@),
            home_comps(r@.home),
        ) by {
            assert(r@.roots[i] == view_comps(r.roots@[i]@));
        }
        assert forall|i: int| 0 <= i < paths.len() implies #[trigger] r@.texts[i] == normalized_text(
            paths@[i]@,
            r@.home,
        ) by {
            assert(r@.texts[i] == r.texts@[i]@);
        }
        assert forall|i: int| 0 <= i < paths.len() implies parse_path(#[trigger] r@.texts[i])
            == r@.roots[i] by {
            lemma_normalized_text_components(paths@[i]@, r@.home);
        }
        r
    }

    fn normalized(&self, name: &str) -> (r: Vec<Component>)
        ensures
            view_comps(r@) == filter_normalized(self@, name@),
    {
        let h = match &self.home {
            Some(h) => Some(h.as_str()),
            None => None,
        };
        normalize_components(&components(name), h)
    }

    /// Whether `name` lies in the allowed area of the first `hi` roots.
    fn allowed(&self, name: &str, hi: usize) -> (r: bool)
        requires
            hi <= self@.roots.len(),
        ensures
            r == (hi > 0 && allowed_among(self@, name@, hi as int)),
    {
        if hi == 0 {
            return false;
        }
        let n = self.normalized(name);
        if is_blocked(&n) {
            return false;
        }
        let cs = components(name);
        let absolute = cs.len() > 0 && match &cs[0] {
            Component::RootDir => true,
            _ => false,
        };
        if cs.len() > 0 {
            assert(view_comps(cs@)[0] == cs@[0]@);
        }
        if absolute {
            let mut i: usize = 0;
            while i < hi
                invariant
                    hi <= self@.roots.len(),
                    self@.roots.len() == self.roots.len(),
                    i <= hi,
                    view_comps(n@) == filter_normalized(self@, name@),
                    !is_blocked_comps(view_comps(n@)),
                    is_absolute_comps(parse_path(name@)),
                    0 < hi,
                    forall|j: int| 0 <= j < i ==> !has_prefix(view_comps(n@), #[trigger] self@.roots[j]),
                decreases hi - i,
            {
                assert(self@.roots[i as int] == view_comps(self.roots@[i as int]@));
                if starts_with_components(&n, &self.roots[i]) {
                    assert(has_prefix(view_comps(n@), self@.roots[i as int]));
                    return true;
                }
                i = i + 1;
            }
            false
        } else {
            relative_path_stays_within(&n)
        }
    }

    /// Whether a path may be read.
    ///
    /// Absolute paths must lie below at least one root. Relative paths are
    /// resolved lexically against the roots and must not climb above them.
    /// Blocked directory names are matched as whole components.
    pub fn contains(&self, name: &str) -> (r: bool)
        ensures
            r == spec_contains(self@, name@),
    {
        self.allowed(name, self.roots.len())
    }

    /// Whether a path may be written: writes are restricted to the first root.
    pub fn can_write(&self, name: &str) -> (r: bool)
        ensures
            r == spec_can_write(self@, name@),
    {
        if self.roots.len() == 0 {
            return false;
        }
        self.allowed(name, 1)
    }

    /// Whether an existing, resolved target (such as the target of a symbolic
    /// link) lies below some root. `resolved` is the canonical form of the
    /// target, `None` where it could not be resolved; `canonical_roots[i]` is the
    /// canonical form of root `i`, `None` where it could not be resolved, in
    /// which case the root is normalized once more instead.
    pub fn contains_resolved(&self, resolved: Option<&str>, canonical_roots: &Vec<Option<String>>) -> (r: bool)
        ensures
            r == spec_contains_resolved(
                self@,
                opt_str_text(resolved),
                canonical_roots@.map_values(|c: Option<String>| opt_text(c)),
            ),
    {
        let ghost canon = canonical_roots@.map_values(|c: Option<String>| opt_text(c));
        proof {
            use_type_invariant(self);
        }
        let t = match resolved {
            None => {
                return false;
            },
            Some(t) => t,
        };
        let target = components(t);
        if is_blocked(&target) {
            return false;
        }
        let h = match &self.home {
            Some(h) => Some(h.as_str()),
            None => None,
        };
        let mut i: usize = 0;
        while i < self.roots.len()
            invariant
                i <= self.roots.len(),
                self@.roots.len() == self.roots.len(),
                self.texts.len() == self.roots.len(),
                self@.texts.len() == self.texts.len(),
                view_comps(target@) == parse_path(t@),
                !is_blocked_comps(parse_path(t@)),
                resolved == Some(t),
                canon == canonical_roots@.map_values(|c: Option<String>| opt_text(c)),
                opt_str_text(h) == self@.home,
                forall|j: int|
                    0 <= j < i ==> !has_prefix(parse_path(t@), #[trigger] resolved_base(self@, canon, j)),
            decreases self.roots.len() - i,
        {
            let base = if i < canonical_roots.len() && canonical_roots[i].is_some() {
                match &canonical_roots[i] {
                    Some(c) => components(c.as_str()),
                    None => Vec::new(),
                }
            } else {
                components(normalize_path(self.texts[i].as_str(), h).as_str())
            };
            assert(self@.texts[i as int] == self.texts@[i as int]@);
            assert(view_comps(base@) == resolved_base(self@, canon, i as int));
            if starts_with_components(&target, &base) {
                assert(has_prefix(parse_path(t@), resolved_base(self@, canon, i as int)));
                return true;
            }
            i = i + 1;
        }
        false
    }

    /// A copy of this filter.
    pub fn duplicate(&self) -> (r: Pathfilter)
        ensures
            r@ == self@,
    {
        proof {
            use_type_invariant(self);
        }
        let mut roots: Vec<Vec<Component>> = Vec::new();
        let mut i: usize = 0;
        while i < self.roots.len()
            invariant
                i <= self.roots.len(),
                roots.len() == i,
                forall|j: int|
                    0 <= j < i ==> #[trigger] view_comps(roots@[j]@) == view_comps(self.roots@[j]@),
            decreases self.roots.len() - i,
        {
            roots.push(duplicate_components(&self.roots[i]));
            i = i + 1;
        }
        let mut texts: Vec<String> = Vec::new();
        let mut k: usize = 0;
        while k < self.texts.len()
            invariant
                k <= self.texts.len(),
                texts.len() == k,
                forall|j: int| 0 <= j < k ==> #[trigger] texts@[j]@ == self.texts@[j]@,
            decreases self.texts.len() - k,
        {
            texts.push(self.texts[k].clone());
            k = k + 1;
        }
        let home = match &self.home {
            Some(h) => Some(h.clone()),
            None => None,
        };
        let r = Pathfilter { roots, texts, home };
        assert(r@.roots =~= self@.roots) by {
            assert forall|j: int| 0 <= j < r@.roots.len() implies r@.roots[j] == self@.roots[j] by {
                assert(r@.roots[j] == view_comps(r.roots@[j]@));
                assert(self@.roots[j] == view_comps(self.roots@[j]@));
            }
        }
        assert(r@.texts =~= self@.texts) by {
            assert forall|j: int| 0 <= j < r@.texts.len() implies r@.texts[j] == self@.texts[j] by {
                assert(r@.texts[j] == r.texts@[j]@);
                assert(self@.texts[j] == self.texts@[j]@);
            }
        }
        r
    }

    /// The roots, as path texts.
    pub fn roots(&self) -> (r: Vec<String>)
        ensures
            r.len() == self@.texts.len(),
            forall|i: int| 0 <= i < r.len() ==> #[trigger] r@[i]@ == self@.texts[i],
    {
        let mut out: Vec<String> = Vec::new();
        let mut i: usize = 0;
        while i < self.texts.len()
            invariant
                i <= self.texts.len(),
                out.len() == i,
                self@.texts.len() == self.texts.len(),
                forall|j: int| 0 <= j < i ==> #[trigger] out@[j]@ == self@.texts[j],
            decreases self.texts.len() - i,
        {
            assert(self@.texts[i as int] == self.texts@[i as int]@);
            out.push(self.texts[i].clone());
            i = i + 1;
        }
        out
    }
}

impl Pathfilter {
    /// What the filter shows of itself: its roots, as a list of paths.
    pub fn to_display_string(&self) -> (r: String)
        ensures
            r@ == filter_display(self@),
    {
        let roots = self.roots();
        let ghost items = self@.texts.map_values(|t: Seq<char>| path_debug_text(t));
        let mut s = String::from_str("[");
        let mut body = String::new();
        let mut i: usize = 0;
        assert(items.take(0) =~= Seq::<Seq<char>>::empty());
        while i < roots.len()
            invariant
                i <= roots.len(),
                roots.len() == self@.texts.len(),
                items == self@.texts.map_values(|t: Seq<char>| path_debug_text(t)),
                forall|j: int| 0 <= j < roots.len() ==> #[trigger] roots@[j]@ == self@.texts[j],
                body@ == join_comma(items.take(i as int)),
            decreases roots.len() - i,
        {
            assert(items.take(i + 1).drop_last() =~= items.take(i as int));
            assert(items.take(i + 1).last() == path_debug_text(roots@[i as int]@));
            let d = path_debug(roots[i].as_str());
            if i > 0 {
                body.append(", ");
            } else {
                assert(items.take(1) =~= seq![items[0]]);
            }
            body.append(d.as_str());
            i = i + 1;
        }
        assert(items.take(roots.len() as int) =~= items);
        s.append(body.as_str());
        s.append("]");
        s
    }
}

impl Clone for Pathfilter {
    fn clone(&self) -> (r: Pathfilter)
        ensures
            r@ == self@,
    {
        self.duplicate()
    }
}

} // verus!
