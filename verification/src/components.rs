//! Lexical model of Unix paths: a path is a sequence of components, as
//! `std::path::Path::components` yields them.
use vstd::prelude::*;

verus! {

/// The mathematical model of one path component.
pub enum Comp {
    RootDir,
    CurDir,
    ParentDir,
    Normal(Seq<char>),
}

/// One component of a Unix path.
#[derive(Debug)]
pub enum Component {
    RootDir,
    CurDir,
    ParentDir,
    Normal(String),
}

impl View for Component {
    type V = Comp;

    open spec fn view(&self) -> Comp {
        match self {
            Component::RootDir => Comp::RootDir,
            Component::CurDir => Comp::CurDir,
            Component::ParentDir => Comp::ParentDir,
            Component::Normal(s) => Comp::Normal(s@),
        }
    }
}

/// The model of a sequence of components.
pub open spec fn view_comps(v: Seq<Component>) -> Seq<Comp> {
    v.map_values(|c: Component| c@)
}

/// The text between separators, left to right; `"a//b/"` splits into `a`, ``, `b`, ``.
pub open spec fn split_parts(s: Seq<char>) -> Seq<Seq<char>>
    decreases s.len(),
{
    if s.len() == 0 {
        seq![Seq::<char>::empty()]
    } else {
        let init = split_parts(s.drop_last());
        if s.last() == '/' {
            init.push(Seq::<char>::empty())
        } else {
            init.update(init.len() - 1, init.last().push(s.last()))
        }
    }
}

/// The components that one piece of text between separators contributes:
/// empty pieces and `.` contribute nothing.
pub open spec fn part_comps(p: Seq<char>) -> Seq<Comp> {
    if p.len() == 0 || p == seq!['.'] {
        seq![]
    } else if p == seq!['.', '.'] {
        seq![Comp::ParentDir]
    } else {
        seq![Comp::Normal(p)]
    }
}

pub open spec fn parts_comps(parts: Seq<Seq<char>>) -> Seq<Comp>
    decreases parts.len(),
{
    if parts.len() == 0 {
        seq![]
    } else {
        parts_comps(parts.drop_last()) + part_comps(parts.last())
    }
}

/// A leading `/` gives the root; a leading `.` that stands alone or before a
/// separator gives the current directory.
pub open spec fn head_comps(s: Seq<char>) -> Seq<Comp> {
    if s.len() > 0 && s[0] == '/' {
        seq![Comp::RootDir]
    } else if s.len() > 0 && s[0] == '.' && (s.len() == 1 || s[1] == '/') {
        seq![Comp::CurDir]
    } else {
        seq![]
    }
}

/// The components of a Unix path text.
pub open spec fn parse_path(s: Seq<char>) -> Seq<Comp> {
    head_comps(s) + parts_comps(split_parts(s))
}

/// The text with every backslash turned into a slash.
pub open spec fn unify_separators(s: Seq<char>) -> Seq<char> {
    s.map_values(|c: char| if c == '\\' { '/' } else { c })
}

pub proof fn lemma_split_parts_nonempty(s: Seq<char>)
    ensures
        split_parts(s).len() >= 1,
    decreases s.len(),
{
    if s.len() > 0 {
        lemma_split_parts_nonempty(s.drop_last());
    }
}

/// The characters of a string.
pub fn chars_of(s: &str) -> (r: Vec<char>)
    ensures
        r@ == s@,
{
    let mut v: Vec<char> = Vec::new();
    for c in it: s.chars()
        invariant
            v@ == it.seq().take(it.index() as int),
    {
        v.push(c);
    }
    v
}

fn is_separator(c: char, backslash: bool) -> (r: bool)
    ensures
        r == (c == '/' || (backslash && c == '\\')),
{
    c == '/' || (backslash && c == '\\')
}

/// Appends the component of the piece `chars[start..end]`.
fn push_part(
    out: &mut Vec<Component>,
    path: &str,
    chars: &Vec<char>,
    start: usize,
    end: usize,
    Ghost(p): Ghost<Seq<char>>,
)
    requires
        chars@ == path@,
        start <= end <= chars.len(),
        p == path@.subrange(start as int, end as int),
    ensures
        view_comps(final(out)@) == view_comps(old(out)@) + part_comps(p),
{
    let len = end - start;
    if len == 0 {
        assert(view_comps(out@) + part_comps(p) =~= view_comps(out@));
        return ;
    }
    if len == 1 && chars[start] == '.' {
        assert(p =~= seq!['.']);
        assert(view_comps(out@) + part_comps(p) =~= view_comps(out@));
        return ;
    }
    if len == 2 && chars[start] == '.' && chars[start + 1] == '.' {
        assert(p =~= seq!['.', '.']);
        out.push(Component::ParentDir);
        assert(view_comps(out@) =~= view_comps(old(out)@) + part_comps(p));
        return ;
    }
    assert(p != seq!['.']) by {
        if len == 1 {
            assert(p[0] == chars@[start as int]);
        } else {
            assert(p.len() != 1);
        }
    }
    assert(p != seq!['.', '.']) by {
        if len == 2 {
            assert(p[0] == chars@[start as int]);
            assert(p[1] == chars@[start + 1]);
        } else {
            assert(p.len() != 2);
        }
    }
    let name = path.substring_char(start, end).to_owned();
    out.push(Component::Normal(name));
    assert(view_comps(out@) =~= view_comps(old(out)@) + part_comps(p));
}

/// Splits a path text into its components, treating backslashes as separators
/// too when `backslash` holds.
pub fn components_with(path: &str, backslash: bool) -> (r: Vec<Component>)
    ensures
        view_comps(r@) == parse_path(if backslash { unify_separators(path@) } else { path@ }),
{
    let chars = chars_of(path);
    let ghost s = if backslash { unify_separators(path@) } else { path@ };
    let n = chars.len();
    assert(s.len() == n);
    assert(forall|j: int| 0 <= j < n ==> (#[trigger] s[j] == '/') == (chars@[j] == '/' || (
    backslash && chars@[j] == '\\')));
    let mut out: Vec<Component> = Vec::new();
    if n > 0 && is_separator(chars[0], backslash) {
        out.push(Component::RootDir);
    } else if n > 0 && chars[0] == '.' && (n == 1 || is_separator(chars[1], backslash)) {
        out.push(Component::CurDir);
    }
    assert(view_comps(out@) =~= head_comps(s));
    let mut start: usize = 0;
    let mut i: usize = 0;
    assert(s.take(0) =~= Seq::<char>::empty());
    while i < n
        invariant
            chars@ == path@,
            n == chars.len(),
            s.len() == n,
            s == (if backslash { unify_separators(path@) } else { path@ }),
            forall|j: int| 0 <= j < n ==> (#[trigger] s[j] == '/') == (chars@[j] == '/' || (
            backslash && chars@[j] == '\\')),
            0 <= start <= i <= n,
            split_parts(s.take(i as int)).len() >= 1,
            split_parts(s.take(i as int)).last() == s.subrange(start as int, i as int),
            forall|j: int| start <= j < i ==> s[j] != '/',
            view_comps(out@) == head_comps(s) + parts_comps(split_parts(s.take(i as int)).drop_last()),
        decreases n - i,
    {
        let ghost prev = split_parts(s.take(i as int));
        assert(s.take(i + 1).drop_last() =~= s.take(i as int));
        assert(s.take(i + 1).last() == s[i as int]);
        if is_separator(chars[i], backslash) {
            assert(s.subrange(start as int, i as int) =~= path@.subrange(start as int, i as int))
                by {
                if backslash {
                    assert forall|j: int| start <= j < i implies path@[j] != '\\' by {
                        assert(s[j] != '/');
                    }
                }
            }
            push_part(&mut out, path, &chars, start, i, Ghost(s.subrange(start as int, i as int)));
            assert(split_parts(s.take(i + 1)) == prev.push(Seq::<char>::empty()));
            assert(split_parts(s.take(i + 1)).drop_last() =~= prev);
            assert(prev =~= prev.drop_last().push(prev.last()));
            start = i + 1;
            assert(s.subrange(start as int, i + 1) =~= Seq::<char>::empty());
        } else {
            assert(split_parts(s.take(i + 1)) == prev.update(
                prev.len() - 1,
                prev.last().push(s[i as int]),
            ));
            assert(split_parts(s.take(i + 1)).drop_last() =~= prev.drop_last());
            assert(s.subrange(start as int, i + 1) =~= s.subrange(start as int, i as int).push(
                s[i as int],
            ));
        }
        i = i + 1;
    }
    assert(s.take(n as int) =~= s);
    let ghost parts = split_parts(s);
    assert(s.subrange(start as int, n as int) =~= path@.subrange(start as int, n as int)) by {
        if backslash {
            assert forall|j: int| start <= j < n implies path@[j] != '\\' by {
                assert(s[j] != '/');
            }
        }
    }
    push_part(&mut out, path, &chars, start, n, Ghost(s.subrange(start as int, n as int)));
    assert(parts =~= parts.drop_last().push(parts.last()));
    assert(head_comps(s) + parts_comps(parts) =~= head_comps(s) + parts_comps(parts.drop_last())
        + part_comps(parts.last()));
    out
}

/// The components of a Unix path text, as `Path::components` yields them.
pub fn components(path: &str) -> (r: Vec<Component>)
    ensures
        view_comps(r@) == parse_path(path@),
{
    components_with(path, false)
}


/// A name that a `Normal` component can hold: not empty, no separator, not `.` or `..`.
pub open spec fn valid_name(n: Seq<char>) -> bool {
    &&& n.len() > 0
    &&& !n.contains('/')
    &&& n != seq!['.']
    &&& n != seq!['.', '.']
}

/// The shape of every sequence that parsing yields: the root and the current
/// directory only come first, and names are valid.
pub open spec fn wf_comps(cs: Seq<Comp>) -> bool {
    forall|i: int|
        0 <= i < cs.len() ==> match #[trigger] cs[i] {
            Comp::RootDir => i == 0,
            Comp::CurDir => i == 0,
            Comp::ParentDir => true,
            Comp::Normal(n) => valid_name(n),
        }
}

/// The text of one component.
pub open spec fn comp_text(c: Comp) -> Seq<char> {
    match c {
        Comp::RootDir => seq!['/'],
        Comp::CurDir => seq!['.'],
        Comp::ParentDir => seq!['.', '.'],
        Comp::Normal(n) => n,
    }
}

/// `PathBuf::push` on texts: an absolute piece replaces the path, otherwise a
/// separator is added where the path does not already end in one.
pub open spec fn push_text(acc: Seq<char>, t: Seq<char>) -> Seq<char> {
    if t.len() > 0 && t[0] == '/' {
        t
    } else if acc.len() > 0 && acc.last() != '/' {
        acc + seq!['/'] + t
    } else {
        acc + t
    }
}

/// The text of a component sequence, built by pushing each component in turn.
pub open spec fn render(cs: Seq<Comp>) -> Seq<char>
    decreases cs.len(),
{
    if cs.len() == 0 {
        seq![]
    } else {
        push_text(render(cs.drop_last()), comp_text(cs.last()))
    }
}

proof fn lemma_split_sep(x: Seq<char>)
    ensures
        split_parts(x + seq!['/']) == split_parts(x).push(Seq::<char>::empty()),
{
    assert((x + seq!['/']).drop_last() =~= x);
}

proof fn lemma_split_no_sep(x: Seq<char>, u: Seq<char>)
    requires
        !u.contains('/'),
    ensures
        split_parts(x + u) == split_parts(x).update(
            split_parts(x).len() - 1,
            split_parts(x).last() + u,
        ),
    decreases u.len(),
{
    lemma_split_parts_nonempty(x);
    if u.len() == 0 {
        assert(x + u =~= x);
        assert(split_parts(x).last() + u =~= split_parts(x).last());
        assert(split_parts(x).update(split_parts(x).len() - 1, split_parts(x).last())
            =~= split_parts(x));
    } else {
        let u0 = u.drop_last();
        assert(!u0.contains('/')) by {
            if u0.contains('/') {
                let k = choose|k: int| 0 <= k < u0.len() && u0[k] == '/';
                assert(u[k] == '/');
            }
        }
        lemma_split_no_sep(x, u0);
        assert((x + u).drop_last() =~= x + u0);
        assert((x + u).last() == u.last());
        assert(u.last() != '/') by {
            assert(u[u.len() - 1] == u.last());
        }
        let sp = split_parts(x);
        assert(split_parts(x + u0).last() == sp.last() + u0);
        assert(sp.last() + u0 + seq![u.last()] =~= sp.last() + u);
        assert((sp.last() + u0).push(u.last()) =~= sp.last() + u);
        assert(split_parts(x + u) =~= sp.update(sp.len() - 1, sp.last() + u));
    }
}

pub proof fn lemma_parts_comps_single(p: Seq<char>)
    ensures
        parts_comps(seq![p]) == part_comps(p),
{
    assert(seq![p].drop_last() =~= Seq::<Seq<char>>::empty());
    assert(parts_comps(Seq::<Seq<char>>::empty()) == Seq::<Comp>::empty());
    assert(Seq::<Comp>::empty() + part_comps(p) =~= part_comps(p));
}

proof fn lemma_parts_comps_push(parts: Seq<Seq<char>>, p: Seq<char>)
    ensures
        parts_comps(parts.push(p)) == parts_comps(parts) + part_comps(p),
{
    assert(parts.push(p).drop_last() =~= parts);
}

proof fn lemma_head_extend(r: Seq<char>, t: Seq<char>)
    requires
        r.len() > 0,
    ensures
        head_comps(r + seq!['/'] + t) == head_comps(r),
        r.last() == '/' ==> head_comps(r + t) == head_comps(r),
{
    let a = r + seq!['/'] + t;
    assert(a[0] == r[0]);
    if r.len() >= 2 {
        assert(a[1] == r[1]);
    } else {
        assert(a[1] == '/');
    }
    if r.last() == '/' {
        let b = r + t;
        assert(b[0] == r[0]);
        if r.len() >= 2 {
            assert(b[1] == r[1]);
        }
    }
}

pub proof fn lemma_render_shape(cs: Seq<Comp>)
    requires
        wf_comps(cs),
        cs.len() > 0,
    ensures
        render(cs).len() > 0,
        (render(cs).last() == '/') == (cs.len() == 1 && cs[0] == Comp::RootDir),
        render(cs)[0] == comp_text(cs[0])[0],
    decreases cs.len(),
{
    let c = cs.last();
    let t = comp_text(c);
    if cs.len() == 1 {
        assert(cs.drop_last() =~= Seq::<Comp>::empty());
        match c {
            Comp::Normal(n) => {
                assert(n[n.len() - 1] != '/') by {
                    if n[n.len() - 1] == '/' {
                        assert(n.contains('/'));
                    }
                }
            },
            _ => {},
        }
    } else {
        let cs0 = cs.drop_last();
        assert(wf_comps(cs0)) by {
            assert forall|i: int| 0 <= i < cs0.len() implies match #[trigger] cs0[i] {
                Comp::RootDir => i == 0,
                Comp::CurDir => i == 0,
                Comp::ParentDir => true,
                Comp::Normal(n) => valid_name(n),
            } by {
                assert(cs0[i] == cs[i]);
            }
        }
        lemma_render_shape(cs0);
        assert(cs[cs.len() - 1] == c);
        match c {
            Comp::Normal(n) => {
                assert(n[n.len() - 1] != '/') by {
                    if n[n.len() - 1] == '/' {
                        assert(n.contains('/'));
                    }
                }
                assert(n[0] != '/') by {
                    if n[0] == '/' {
                        assert(n.contains('/'));
                    }
                }
            },
            _ => {},
        }
        assert(cs0[0] == cs[0]);
    }
}

/// Parsing the text of a well-formed component sequence gives that sequence back.
pub proof fn lemma_parse_render(cs: Seq<Comp>)
    requires
        wf_comps(cs),
    ensures
        parse_path(render(cs)) == cs,
    decreases cs.len(),
{
    if cs.len() == 0 {
        lemma_parts_comps_single(Seq::<char>::empty());
        assert(split_parts(Seq::<char>::empty()) == seq![Seq::<char>::empty()]);
        assert(part_comps(Seq::<char>::empty()) =~= Seq::<Comp>::empty());
        assert(head_comps(Seq::<char>::empty()) =~= Seq::<Comp>::empty());
        assert(parse_path(seq![]) =~= cs);
    } else if cs.len() == 1 {
        let c = cs[0];
        assert(cs.drop_last() =~= Seq::<Comp>::empty());
        assert(cs.last() == c);
        let r = render(cs);
        assert(r == comp_text(c) || (c == Comp::RootDir && r == seq!['/'])) by {
            assert(render(cs.drop_last()) == Seq::<char>::empty());
            assert(Seq::<char>::empty() + comp_text(c) =~= comp_text(c));
        }
        match c {
            Comp::RootDir => {
                lemma_split_sep(Seq::<char>::empty());
                assert(Seq::<char>::empty() + seq!['/'] =~= r);
                assert(split_parts(r) =~= seq![Seq::<char>::empty(), Seq::<char>::empty()]);
                lemma_parts_comps_single(Seq::<char>::empty());
                lemma_parts_comps_push(seq![Seq::<char>::empty()], Seq::<char>::empty());
                assert(seq![Seq::<char>::empty()].push(Seq::<char>::empty()) =~= split_parts(r));
                assert(part_comps(Seq::<char>::empty()) =~= Seq::<Comp>::empty());
                assert(parts_comps(split_parts(r)) =~= Seq::<Comp>::empty());
                assert(head_comps(r) =~= seq![Comp::RootDir]);
                assert(parse_path(r) =~= cs);
            },
            Comp::CurDir => {
                assert(r =~= seq!['.']);
                assert(!r.contains('/')) by {
                    if r.contains('/') {
                        let k = choose|k: int| 0 <= k < r.len() && r[k] == '/';
                    }
                }
                lemma_split_no_sep(Seq::<char>::empty(), r);
                assert(Seq::<char>::empty() + r =~= r);
                assert(split_parts(r) =~= seq![r]);
                lemma_parts_comps_single(r);
                assert(part_comps(r) =~= Seq::<Comp>::empty());
                assert(head_comps(r) =~= seq![Comp::CurDir]);
                assert(parse_path(r) =~= cs);
            },
            Comp::ParentDir => {
                assert(r =~= seq!['.', '.']);
                assert(!r.contains('/')) by {
                    if r.contains('/') {
                        let k = choose|k: int| 0 <= k < r.len() && r[k] == '/';
                    }
                }
                lemma_split_no_sep(Seq::<char>::empty(), r);
                assert(Seq::<char>::empty() + r =~= r);
                assert(split_parts(r) =~= seq![r]);
                lemma_parts_comps_single(r);
                assert(r =~= seq!['.', '.']);
                assert(part_comps(r) =~= seq![Comp::ParentDir]);
                assert(head_comps(r) =~= Seq::<Comp>::empty());
                assert(parse_path(r) =~= cs);
            },
            Comp::Normal(n) => {
                assert(valid_name(n));
                lemma_split_no_sep(Seq::<char>::empty(), r);
                assert(Seq::<char>::empty() + r =~= r);
                assert(split_parts(r) =~= seq![r]);
                lemma_parts_comps_single(r);
                assert(r[0] != '/') by {
                    if r[0] == '/' {
                        assert(n.contains('/'));
                    }
                }
                assert(!(r.len() >= 2 && r[1] == '/')) by {
                    if r.len() >= 2 && r[1] == '/' {
                        assert(n.contains('/'));
                    }
                }
                assert(r.len() == 1 ==> r != seq!['.']);
                if r.len() == 1 && r[0] == '.' {
                    assert(r =~= seq!['.']);
                }
                assert(head_comps(r) =~= Seq::<Comp>::empty());
                assert(parse_path(r) =~= cs);
            },
        }
    } else {
        let cs0 = cs.drop_last();
        let c = cs.last();
        assert(wf_comps(cs0)) by {
            assert forall|i: int| 0 <= i < cs0.len() implies match #[trigger] cs0[i] {
                Comp::RootDir => i == 0,
                Comp::CurDir => i == 0,
                Comp::ParentDir => true,
                Comp::Normal(n) => valid_name(n),
            } by {
                assert(cs0[i] == cs[i]);
            }
        }
        lemma_parse_render(cs0);
        lemma_render_shape(cs0);
        let r = render(cs0);
        let t = comp_text(c);
        assert(cs[cs.len() - 1] == c);
        assert(c is ParentDir || c is Normal);
        assert(!t.contains('/')) by {
            if t.contains('/') {
                let k = choose|k: int| 0 <= k < t.len() && t[k] == '/';
                if c is ParentDir {
                    assert(t[k] == '.');
                }
            }
        }
        assert(t.len() > 0 && t[0] != '/') by {
            if c is Normal {
                if t[0] == '/' {
                    assert(t.contains('/'));
                }
            }
        }
        assert(part_comps(t) == seq![c]);
        lemma_split_parts_nonempty(r);
        let sp = split_parts(r);
        if r.last() == '/' {
            assert(render(cs) == r + t);
            lemma_split_no_sep(r, t);
            assert(r =~= r.drop_last() + seq!['/']);
            lemma_split_sep(r.drop_last());
            assert(sp.last() == Seq::<char>::empty());
            assert(sp.last() + t =~= t);
            let sp0 = sp.drop_last();
            assert(sp =~= sp0.push(Seq::<char>::empty()));
            assert(split_parts(r + t) =~= sp0.push(t));
            lemma_parts_comps_push(sp0, t);
            lemma_parts_comps_push(sp0, Seq::<char>::empty());
            assert(part_comps(Seq::<char>::empty()) =~= Seq::<Comp>::empty());
            assert(parts_comps(sp) =~= parts_comps(sp0));
            lemma_head_extend(r, t);
            assert(parse_path(r + t) =~= head_comps(r) + parts_comps(sp) + seq![c]);
            assert(cs =~= cs0.push(c));
        } else {
            assert(render(cs) == r + seq!['/'] + t);
            lemma_split_sep(r);
            lemma_split_no_sep(r + seq!['/'], t);
            let spr = sp.push(Seq::<char>::empty());
            assert(spr.last() + t =~= t);
            assert(split_parts(r + seq!['/'] + t) =~= sp.push(t));
            lemma_parts_comps_push(sp, t);
            lemma_head_extend(r, t);
            assert(parse_path(r + seq!['/'] + t) =~= head_comps(r) + parts_comps(sp) + seq![c]);
            assert(cs =~= cs0.push(c));
        }
    }
}


proof fn lemma_split_concat(x: Seq<char>, y: Seq<char>)
    ensures
        split_parts(x + seq!['/'] + y) == split_parts(x) + split_parts(y),
    decreases y.len(),
{
    lemma_split_parts_nonempty(y);
    if y.len() == 0 {
        lemma_split_sep(x);
        assert(x + seq!['/'] + y =~= x + seq!['/']);
        assert(split_parts(y) == seq![Seq::<char>::empty()]);
        assert(split_parts(x).push(Seq::<char>::empty()) =~= split_parts(x) + seq![
            Seq::<char>::empty(),
        ]);
    } else {
        let y0 = y.drop_last();
        let c = y.last();
        lemma_split_concat(x, y0);
        lemma_split_parts_nonempty(y0);
        let z = x + seq!['/'] + y;
        assert(z.drop_last() =~= x + seq!['/'] + y0);
        assert(z.last() == c);
        let a = split_parts(x);
        let b0 = split_parts(y0);
        if c == '/' {
            assert(split_parts(y) == b0.push(Seq::<char>::empty()));
            assert((a + b0).push(Seq::<char>::empty()) =~= a + b0.push(Seq::<char>::empty()));
        } else {
            assert(split_parts(y) == b0.update(b0.len() - 1, b0.last().push(c)));
            assert((a + b0).last() == b0.last());
            assert((a + b0).update((a + b0).len() - 1, b0.last().push(c)) =~= a + b0.update(
                b0.len() - 1,
                b0.last().push(c),
            ));
        }
    }
}

proof fn lemma_parts_comps_concat(a: Seq<Seq<char>>, b: Seq<Seq<char>>)
    ensures
        parts_comps(a + b) == parts_comps(a) + parts_comps(b),
    decreases b.len(),
{
    if b.len() == 0 {
        assert(a + b =~= a);
        assert(parts_comps(b) == Seq::<Comp>::empty());
        assert(parts_comps(a) + parts_comps(b) =~= parts_comps(a));
    } else {
        lemma_parts_comps_concat(a, b.drop_last());
        assert((a + b).drop_last() =~= a + b.drop_last());
        assert((a + b).last() == b.last());
        assert(parts_comps(a) + parts_comps(b.drop_last()) + part_comps(b.last()) =~= parts_comps(a)
            + (parts_comps(b.drop_last()) + part_comps(b.last())));
    }
}

/// The text `x`, a separator, then `y` has the components of `x` followed by
/// those that the pieces of `y` give.
pub proof fn lemma_parse_concat(x: Seq<char>, y: Seq<char>)
    requires
        x.len() > 0,
    ensures
        parse_path(x + seq!['/'] + y) == parse_path(x) + parts_comps(split_parts(y)),
        x.last() == '/' ==> parse_path(x + y) == parse_path(x) + parts_comps(split_parts(y)),
{
    lemma_split_concat(x, y);
    lemma_parts_comps_concat(split_parts(x), split_parts(y));
    lemma_head_extend(x, y);
    assert(head_comps(x) + parts_comps(split_parts(x)) + parts_comps(split_parts(y)) =~= head_comps(x)
        + (parts_comps(split_parts(x)) + parts_comps(split_parts(y))));
    if x.last() == '/' {
        let x0 = x.drop_last();
        assert(x =~= x0 + seq!['/']);
        assert(x + y =~= x0 + seq!['/'] + y);
        lemma_split_concat(x0, y);
        lemma_split_sep(x0);
        lemma_parts_comps_concat(split_parts(x0), split_parts(y));
        lemma_parts_comps_push(split_parts(x0), Seq::<char>::empty());
        assert(part_comps(Seq::<char>::empty()) =~= Seq::<Comp>::empty());
        assert(parts_comps(split_parts(x)) =~= parts_comps(split_parts(x0)));
        assert(head_comps(x) + parts_comps(split_parts(x0)) + parts_comps(split_parts(y)) =~= head_comps(
            x,
        ) + (parts_comps(split_parts(x0)) + parts_comps(split_parts(y))));
    }
}

/// How much of a path text comes before its body: the root `/`, or a
/// leading `.` that stands alone or before a separator.
pub open spec fn head_len(t: Seq<char>) -> int {
    if head_comps(t).len() > 0 {
        1
    } else {
        0
    }
}

/// The position of the last separator of `t` at or after `from`.
pub open spec fn last_sep_from(t: Seq<char>, from: int) -> Option<int>
    decreases t.len(),
{
    if t.len() <= from || t.len() == 0 {
        None
    } else if t.last() == '/' {
        Some(t.len() - 1)
    } else {
        last_sep_from(t.drop_last(), from)
    }
}

pub proof fn lemma_last_sep_from(t: Seq<char>, from: int)
    requires
        0 <= from,
    ensures
        match last_sep_from(t, from) {
            Some(i) => from <= i < t.len() && t[i] == '/' && forall|j: int| i < j < t.len() ==> t[j] != '/',
            None => forall|j: int| from <= j < t.len() ==> t[j] != '/',
        },
    decreases t.len(),
{
    if t.len() > from && t.len() > 0 && t.last() != '/' {
        lemma_last_sep_from(t.drop_last(), from);
        assert forall|j: int| from <= j < t.len() - 1 implies t.drop_last()[j] == t[j] by {}
    }
}

/// The text of a path with the last unit of its body cut off, and that unit:
/// what follows the last separator of the body (the separator goes too), or
/// the whole body where it has no separator.
pub open spec fn cut_unit(t: Seq<char>, from: int) -> (Seq<char>, Seq<char>) {
    match last_sep_from(t, from) {
        Some(i) => (t.take(i), t.skip(i + 1)),
        None => (t.take(from), t.skip(from)),
    }
}

/// A piece of a path text that names no component: empty, or `.`.
pub open spec fn void_piece(p: Seq<char>) -> bool {
    p.len() == 0 || p == seq!['.']
}

/// The text with the trailing units of its body that name no component cut off.
pub open spec fn trim_back(t: Seq<char>, from: int) -> Seq<char>
    recommends
        0 <= from,
    decreases t.len(),
{
    if t.len() <= from || from < 0 {
        t
    } else {
        let (rest, piece) = cut_unit(t, from);
        if void_piece(piece) {
            proof {
                lemma_last_sep_from(t, from);
            }
            trim_back(rest, from)
        } else {
            t
        }
    }
}

/// The text that `PathBuf::pop` leaves of a path text whose last component
/// is a name: the units that name nothing are cut from the end, then the
/// name, then again the units that name nothing.
pub open spec fn parent_text(t: Seq<char>) -> Seq<char> {
    let b = head_len(t);
    let t1 = trim_back(t, b);
    trim_back(cut_unit(t1, b).0, b)
}

fn head_len_exec(chars: &Vec<char>) -> (r: usize)
    ensures
        r == head_len(chars@),
{
    let n = chars.len();
    if n > 0 && chars[0] == '/' {
        1
    } else if n > 0 && chars[0] == '.' && (n == 1 || chars[1] == '/') {
        1
    } else {
        0
    }
}

/// The last separator of `chars[..end]` at or after `from`.
fn last_sep_exec(chars: &Vec<char>, from: usize, end: usize) -> (r: Option<usize>)
    requires
        end <= chars.len(),
    ensures
        match r {
            Some(i) => last_sep_from(chars@.take(end as int), from as int) == Some(i as int),
            None => last_sep_from(chars@.take(end as int), from as int) is None,
        },
{
    let mut j = end;
    while j > from
        invariant
            j <= end <= chars.len(),
            last_sep_from(chars@.take(end as int), from as int) == last_sep_from(
                chars@.take(j as int),
                from as int,
            ),
        decreases j,
    {
        let ghost t = chars@.take(j as int);
        assert(t.drop_last() =~= chars@.take(j - 1));
        assert(t.last() == chars@[j - 1]);
        if chars[j - 1] == '/' {
            return Some(j - 1);
        }
        j = j - 1;
    }
    None
}

/// Where `trim_back(chars[..end], from)` ends.
fn trim_back_exec(chars: &Vec<char>, from: usize, end: usize) -> (r: usize)
    requires
        end <= chars.len(),
    ensures
        r <= end,
        end >= from ==> r >= from,
        chars@.take(r as int) == trim_back(chars@.take(end as int), from as int),
{
    let mut e = end;
    while e > from
        invariant
            e <= end <= chars.len(),
            end >= from ==> e >= from,
            trim_back(chars@.take(e as int), from as int) == trim_back(
                chars@.take(end as int),
                from as int,
            ),
        decreases e,
    {
        let ghost t = chars@.take(e as int);
        proof {
            lemma_last_sep_from(t, from as int);
        }
        let (cut, start) = match last_sep_exec(chars, from, e) {
            Some(i) => (i, i + 1),
            None => (from, from),
        };
        assert(cut_unit(t, from as int).0 =~= chars@.take(cut as int));
        assert(cut_unit(t, from as int).1 =~= chars@.subrange(start as int, e as int));
        let len = e - start;
        let void = len == 0 || (len == 1 && chars[start] == '.');
        assert(void == void_piece(chars@.subrange(start as int, e as int))) by {
            let p = chars@.subrange(start as int, e as int);
            if len == 1 {
                assert(p[0] == chars@[start as int]);
                if chars@[start as int] == '.' {
                    assert(p =~= seq!['.']);
                }
            }
        }
        if !void {
            return e;
        }
        e = cut;
    }
    e
}

/// The text that `PathBuf::pop` leaves of a path text whose last component is a name.
pub fn parent_text_exec(t: &str) -> (r: String)
    ensures
        r@ == parent_text(t@),
{
    let chars = chars_of(t);
    let b = head_len_exec(&chars);
    let e1 = trim_back_exec(&chars, b, chars.len());
    assert(b <= chars.len());
    assert(chars@.take(chars.len() as int) =~= chars@);
    let ghost t1 = chars@.take(e1 as int);
    proof {
        lemma_last_sep_from(t1, b as int);
    }
    let cut = match last_sep_exec(&chars, b, e1) {
        Some(i) => i,
        None => b,
    };
    assert(cut_unit(t1, b as int).0 =~= chars@.take(cut as int));
    let e2 = trim_back_exec(&chars, b, cut);
    t.substring_char(0, e2).to_owned()
}

proof fn lemma_split_single(u: Seq<char>)
    requires
        !u.contains('/'),
    ensures
        split_parts(u) == seq![u],
        parts_comps(split_parts(u)) == part_comps(u),
{
    lemma_split_no_sep(Seq::<char>::empty(), u);
    assert(Seq::<char>::empty() + u =~= u);
    assert(split_parts(Seq::<char>::empty()) == seq![Seq::<char>::empty()]);
    assert(Seq::<char>::empty() + u =~= u);
    assert(seq![Seq::<char>::empty()].update(0, u) =~= seq![u]);
    lemma_parts_comps_single(u);
}

proof fn lemma_parse_empty()
    ensures
        parse_path(Seq::<char>::empty()) == Seq::<Comp>::empty(),
{
    lemma_split_single(Seq::<char>::empty());
    assert(part_comps(Seq::<char>::empty()) =~= Seq::<Comp>::empty());
    assert(head_comps(Seq::<char>::empty()) =~= Seq::<Comp>::empty());
    assert(Seq::<Comp>::empty() + Seq::<Comp>::empty() =~= Seq::<Comp>::empty());
}

/// Cutting the last unit of the body off a path text splits its components
/// into those of what is left and those of the unit; what is left keeps the
/// head of the text.
proof fn lemma_cut_parse(t: Seq<char>)
    ensures
        ({
            let b = head_len(t);
            let (rest, piece) = cut_unit(t, b);
            &&& parse_path(t) == parse_path(rest) + part_comps(piece)
            &&& head_len(rest) == b
            &&& b <= rest.len() <= t.len()
            &&& t.len() > b ==> rest.len() < t.len()
        }),
{
    let b = head_len(t);
    lemma_last_sep_from(t, b);
    match last_sep_from(t, b) {
        Some(i) => {
            let x = t.take(i);
            let y = t.skip(i + 1);
            assert(t =~= x + seq!['/'] + y);
            assert(!y.contains('/')) by {
                if y.contains('/') {
                    let k = choose|k: int| 0 <= k < y.len() && y[k] == '/';
                    assert(t[i + 1 + k] == '/');
                }
            }
            assert(x.len() > 0) by {
                if i == 0 {
                    assert(t[0] == '/');
                }
            }
            assert(x[0] == t[0]);
            if i >= 2 {
                assert(x[1] == t[1]);
            }
            lemma_parse_concat(x, y);
            lemma_split_single(y);
        },
        None => {
            let x = t.take(b);
            let y = t.skip(b);
            assert(t =~= x + y);
            assert(!y.contains('/')) by {
                if y.contains('/') {
                    let k = choose|k: int| 0 <= k < y.len() && y[k] == '/';
                    assert(t[b + k] == '/');
                }
            }
            lemma_split_single(y);
            if b == 0 {
                assert(x =~= Seq::<char>::empty());
                assert(y =~= t);
                lemma_parse_empty();
                assert(head_comps(t) =~= Seq::<Comp>::empty());
                assert(Seq::<Comp>::empty() + part_comps(t) =~= part_comps(t));
            } else if t[0] == '/' {
                assert(x =~= seq!['/']);
                lemma_parse_concat(x, y);
            } else {
                assert(t.len() == 1) by {
                    if t.len() > 1 {
                        assert(t[1] == '/');
                    }
                }
                assert(x =~= t);
                assert(y =~= Seq::<char>::empty());
                assert(part_comps(y) =~= Seq::<Comp>::empty());
                assert(parse_path(x) + part_comps(y) =~= parse_path(x));
            }
        },
    }
}

/// Trimming the units that name nothing from the end of a path text keeps
/// its components and its head; what is left ends in a unit that names
/// something, or is the head alone.
proof fn lemma_trim_back_parse(t: Seq<char>)
    ensures
        parse_path(trim_back(t, head_len(t))) == parse_path(t),
        head_len(trim_back(t, head_len(t))) == head_len(t),
        trim_back(t, head_len(t)).len() > head_len(t) ==> !void_piece(
            cut_unit(trim_back(t, head_len(t)), head_len(t)).1,
        ),
    decreases t.len(),
{
    let b = head_len(t);
    if t.len() > b {
        let (rest, piece) = cut_unit(t, b);
        lemma_cut_parse(t);
        if void_piece(piece) {
            assert(part_comps(piece) =~= Seq::<Comp>::empty());
            assert(parse_path(rest) + part_comps(piece) =~= parse_path(rest));
            lemma_last_sep_from(t, b);
            lemma_trim_back_parse(rest);
        }
    }
}

/// Popping a path text whose last component is a name takes that name off
/// its components, whatever the spelling of the text.
pub proof fn lemma_parent_text_parse(t: Seq<char>)
    requires
        parse_path(t).len() > 0,
        parse_path(t).last() is Normal,
    ensures
        parse_path(parent_text(t)) == parse_path(t).drop_last(),
{
    let b = head_len(t);
    let t1 = trim_back(t, b);
    lemma_trim_back_parse(t);
    if t1.len() <= b {
        lemma_split_parts_nonempty(t1);
        if t1.len() == 0 {
            lemma_parse_empty();
        } else {
            assert(t1.drop_last() =~= Seq::<char>::empty());
            assert(split_parts(Seq::<char>::empty()) == seq![Seq::<char>::empty()]);
            if t1[0] == '/' {
                assert(split_parts(t1) =~= seq![Seq::<char>::empty(), Seq::<char>::empty()]);
                lemma_parts_comps_single(Seq::<char>::empty());
                lemma_parts_comps_push(seq![Seq::<char>::empty()], Seq::<char>::empty());
                assert(seq![Seq::<char>::empty()].push(Seq::<char>::empty()) =~= split_parts(t1));
                assert(part_comps(Seq::<char>::empty()) =~= Seq::<Comp>::empty());
                assert(parse_path(t1) =~= seq![Comp::RootDir]);
            } else {
                assert(t1 =~= seq!['.']);
                assert(!t1.contains('/')) by {
                    if t1.contains('/') {
                        let k = choose|k: int| 0 <= k < t1.len() && t1[k] == '/';
                    }
                }
                lemma_split_single(t1);
                assert(part_comps(t1) =~= Seq::<Comp>::empty());
                assert(parse_path(t1) =~= seq![Comp::CurDir]);
            }
        }
        assert(false);
    } else {
        let (rest, piece) = cut_unit(t1, b);
        lemma_cut_parse(t1);
        let pc = part_comps(piece);
        assert(pc.len() == 1);
        assert(parse_path(t1) == parse_path(rest) + pc);
        assert(parse_path(t1).last() == pc[0]);
        assert((parse_path(rest) + pc).drop_last() =~= parse_path(rest));
        lemma_trim_back_parse(rest);
    }
}

/// Pushing a name or `..` onto any path text adds that component.
pub proof fn lemma_push_text_parse(t: Seq<char>, c: Comp)
    requires
        c is ParentDir || (c matches Comp::Normal(n) && valid_name(n)),
    ensures
        parse_path(push_text(t, comp_text(c))) == parse_path(t).push(c),
{
    let u = comp_text(c);
    assert(!u.contains('/') && u.len() > 0 && u[0] != '/') by {
        if let Comp::Normal(n) = c {
            assert(valid_name(n));
            if u[0] == '/' {
                assert(n.contains('/'));
            }
        } else {
            assert(u =~= seq!['.', '.']);
            if u.contains('/') {
                let k = choose|k: int| 0 <= k < u.len() && u[k] == '/';
            }
        }
    }
    lemma_split_single(u);
    assert(part_comps(u) =~= seq![c]);
    if t.len() == 0 {
        assert(push_text(t, u) =~= u);
        lemma_parse_empty();
        assert(!(u.len() == 1 && u[0] == '.')) by {
            if u.len() == 1 && u[0] == '.' {
                assert(u =~= seq!['.']);
            }
        }
        assert(!(u.len() >= 2 && u[1] == '/')) by {
            if u.len() >= 2 && u[1] == '/' {
                assert(u.contains('/'));
            }
        }
        assert(head_comps(u) =~= Seq::<Comp>::empty());
        assert(parse_path(u) =~= seq![c]);
        assert(Seq::<Comp>::empty().push(c) =~= seq![c]);
    } else {
        lemma_parse_concat(t, u);
        assert(parse_path(t) + seq![c] =~= parse_path(t).push(c));
    }
}

/// Every component that a piece between separators yields: a parent or a valid name.
pub open spec fn body_comps(cs: Seq<Comp>) -> bool {
    forall|i: int|
        0 <= i < cs.len() ==> match #[trigger] cs[i] {
            Comp::ParentDir => true,
            Comp::Normal(n) => valid_name(n),
            _ => false,
        }
}

proof fn lemma_split_parts_no_sep(s: Seq<char>)
    ensures
        forall|k: int|
            0 <= k < split_parts(s).len() ==> !(#[trigger] split_parts(s)[k]).contains('/'),
    decreases s.len(),
{
    if s.len() > 0 {
        lemma_split_parts_no_sep(s.drop_last());
        lemma_split_parts_nonempty(s.drop_last());
        let init = split_parts(s.drop_last());
        if s.last() != '/' {
            let l = init.last().push(s.last());
            assert(!l.contains('/')) by {
                if l.contains('/') {
                    let k = choose|k: int| 0 <= k < l.len() && l[k] == '/';
                    if k < l.len() - 1 {
                        assert(init[init.len() - 1][k] == '/');
                        assert(init[init.len() - 1].contains('/'));
                    }
                }
            }
        }
        assert forall|k: int| 0 <= k < split_parts(s).len() implies !(
        #[trigger] split_parts(s)[k]).contains('/') by {
            if k < init.len() && !(s.last() != '/' && k == init.len() - 1) {
                assert(split_parts(s)[k] == init[k]);
            } else if s.last() == '/' {
                assert(split_parts(s)[k] == Seq::<char>::empty());
                if Seq::<char>::empty().contains('/') {
                    let j = choose|j: int| 0 <= j < 0 && Seq::<char>::empty()[j] == '/';
                }
            }
        }
    }
}

proof fn lemma_parts_comps_body(parts: Seq<Seq<char>>)
    requires
        forall|k: int| 0 <= k < parts.len() ==> !(#[trigger] parts[k]).contains('/'),
    ensures
        body_comps(parts_comps(parts)),
    decreases parts.len(),
{
    if parts.len() > 0 {
        let p0 = parts.drop_last();
        assert forall|k: int| 0 <= k < p0.len() implies !(#[trigger] p0[k]).contains('/') by {
            assert(p0[k] == parts[k]);
        }
        lemma_parts_comps_body(p0);
        let p = parts.last();
        assert(!p.contains('/')) by {
            assert(parts[parts.len() - 1] == p);
        }
        let a = parts_comps(p0);
        let b = part_comps(p);
        assert(body_comps(b));
        assert forall|i: int| 0 <= i < (a + b).len() implies match #[trigger] (a + b)[i] {
            Comp::ParentDir => true,
            Comp::Normal(n) => valid_name(n),
            _ => false,
        } by {
            if i < a.len() {
                assert((a + b)[i] == a[i]);
            } else {
                assert((a + b)[i] == b[i - a.len()]);
            }
        }
    }
}

/// The components that parsing yields are well formed.
pub proof fn lemma_parse_wf(s: Seq<char>)
    ensures
        wf_comps(parse_path(s)),
        body_comps(parse_path(s).skip(head_comps(s).len() as int)),
{
    lemma_split_parts_no_sep(s);
    lemma_parts_comps_body(split_parts(s));
    let h = head_comps(s);
    let b = parts_comps(split_parts(s));
    assert((h + b).skip(h.len() as int) =~= b);
    assert forall|i: int| 0 <= i < (h + b).len() implies match #[trigger] (h + b)[i] {
        Comp::RootDir => i == 0,
        Comp::CurDir => i == 0,
        Comp::ParentDir => true,
        Comp::Normal(n) => valid_name(n),
    } by {
        if i < h.len() {
            assert((h + b)[i] == h[i]);
        } else {
            assert((h + b)[i] == b[i - h.len()]);
        }
    }
}

/// The text of a well-formed component sequence.
pub fn render_components(cs: &Vec<Component>) -> (r: String)
    requires
        wf_comps(view_comps(cs@)),
    ensures
        r@ == render(view_comps(cs@)),
{
    let ghost v = view_comps(cs@);
    let mut acc = String::new();
    let mut need_sep = false;
    let mut i: usize = 0;
    assert(v.take(0) =~= Seq::<Comp>::empty());
    while i < cs.len()
        invariant
            v == view_comps(cs@),
            wf_comps(v),
            i <= cs.len(),
            acc@ == render(v.take(i as int)),
            need_sep == (acc@.len() > 0 && acc@.last() != '/'),
        decreases cs.len() - i,
    {
        let ghost before = acc@;
        proof {
            reveal_strlit("/");
            reveal_strlit(".");
            reveal_strlit("..");
        }
        assert(v.take(i + 1).drop_last() =~= v.take(i as int));
        assert(v.take(i + 1).last() == v[i as int]);
        assert(v[i as int] == cs@[i as int]@);
        match &cs[i] {
            Component::RootDir => {
                acc = String::new();
                acc.append("/");
                need_sep = false;
                assert(acc@ =~= seq!['/']);
            },
            Component::CurDir => {
                if need_sep {
                    acc.append("/");
                }
                acc.append(".");
                need_sep = true;
                assert(acc@.last() == '.');
            },
            Component::ParentDir => {
                if need_sep {
                    acc.append("/");
                }
                acc.append("..");
                need_sep = true;
                assert(acc@.last() == '.');
            },
            Component::Normal(n) => {
                let ghost nv = n@;
                assert(valid_name(nv));
                assert(nv[0] != '/' && nv[nv.len() - 1] != '/') by {
                    if nv[0] == '/' || nv[nv.len() - 1] == '/' {
                        assert(nv.contains('/'));
                    }
                }
                if need_sep {
                    acc.append("/");
                }
                acc.append(n.as_str());
                need_sep = true;
                assert(acc@.last() == nv[nv.len() - 1]);
            },
        }
        assert(acc@ == push_text(before, comp_text(v[i as int])));
        i = i + 1;
    }
    assert(v.take(cs.len() as int) =~= v);
    acc
}


impl Component {
    /// A copy of this component.
    pub fn duplicate(&self) -> (r: Component)
        ensures
            r@ == self@,
    {
        match self {
            Component::RootDir => Component::RootDir,
            Component::CurDir => Component::CurDir,
            Component::ParentDir => Component::ParentDir,
            Component::Normal(n) => Component::Normal(n.clone()),
        }
    }
}


/// Whether `base` is a component-wise prefix of `path`, as `Path::strip_prefix`
/// and `Path::starts_with` decide.
pub open spec fn has_prefix(path: Seq<Comp>, base: Seq<Comp>) -> bool {
    base.len() <= path.len() && path.take(base.len() as int) == base
}

/// A sequence begins with `base` exactly when `base` followed by something
/// is that sequence: it begins with itself and anything added after it, and
/// a difference anywhere within `base`, or a shorter sequence, rules it out.
pub proof fn lemma_has_prefix_law(base: Seq<Comp>, rest: Seq<Comp>, path: Seq<Comp>)
    ensures
        has_prefix(base + rest, base),
        has_prefix(path, base) ==> path =~= base + path.skip(base.len() as int),
        (path.len() < base.len() || exists|i: int|
            0 <= i < base.len() && i < path.len() && path[i] != base[i]) ==> !has_prefix(path, base),
{
    assert((base + rest).take(base.len() as int) =~= base);
    if has_prefix(path, base) {
        assert(path =~= path.take(base.len() as int) + path.skip(base.len() as int));
    }
    if exists|i: int| 0 <= i < base.len() && i < path.len() && path[i] != base[i] {
        let i = choose|i: int| 0 <= i < base.len() && i < path.len() && path[i] != base[i];
        if has_prefix(path, base) {
            assert(path.take(base.len() as int)[i] == path[i]);
        }
    }
}

/// Whether two components are equal.
pub fn component_eq(a: &Component, b: &Component) -> (r: bool)
    ensures
        r == (a@ == b@),
{
    match (a, b) {
        (Component::RootDir, Component::RootDir) => true,
        (Component::CurDir, Component::CurDir) => true,
        (Component::ParentDir, Component::ParentDir) => true,
        (Component::Normal(x), Component::Normal(y)) => x.eq(y),
        _ => false,
    }
}

/// Whether `base` is a component-wise prefix of `path`.
pub fn starts_with_components(path: &Vec<Component>, base: &Vec<Component>) -> (r: bool)
    ensures
        r == has_prefix(view_comps(path@), view_comps(base@)),
{
    let ghost p = view_comps(path@);
    let ghost b = view_comps(base@);
    if base.len() > path.len() {
        return false;
    }
    let mut i: usize = 0;
    while i < base.len()
        invariant
            base.len() <= path.len(),
            p == view_comps(path@),
            b == view_comps(base@),
            i <= base.len(),
            forall|j: int| 0 <= j < i ==> p[j] == b[j],
        decreases base.len() - i,
    {
        if !component_eq(&path[i], &base[i]) {
            assert(p.take(b.len() as int)[i as int] != b[i as int]);
            return false;
        }
        i = i + 1;
    }
    assert(p.take(b.len() as int) =~= b);
    true
}

/// Whether two component sequences are equal.
pub fn components_eq(a: &Vec<Component>, b: &Vec<Component>) -> (r: bool)
    ensures
        r == (view_comps(a@) == view_comps(b@)),
{
    if a.len() != b.len() {
        assert(view_comps(a@).len() != view_comps(b@).len());
        return false;
    }
    let r = starts_with_components(a, b);
    assert(view_comps(a@).take(view_comps(b@).len() as int) =~= view_comps(a@));
    r
}

/// A copy of a component sequence.
pub fn duplicate_components(cs: &Vec<Component>) -> (r: Vec<Component>)
    ensures
        view_comps(r@) == view_comps(cs@),
{
    let mut out: Vec<Component> = Vec::new();
    let mut i: usize = 0;
    while i < cs.len()
        invariant
            i <= cs.len(),
            out.len() == i,
            view_comps(out@) == view_comps(cs@).take(i as int),
        decreases cs.len() - i,
    {
        let ghost before = out@;
        out.push(cs[i].duplicate());
        assert(out@ =~= before.push(out@[i as int]));
        assert(view_comps(out@) =~= view_comps(cs@).take(i + 1)) by {
            assert forall|j: int| 0 <= j < i + 1 implies view_comps(out@)[j] == view_comps(cs@)[j] by {
                if j < i {
                    assert(view_comps(out@)[j] == out@[j]@);
                    assert(out@[j] == before[j]);
                    assert(view_comps(before)[j] == view_comps(cs@).take(i as int)[j]);
                }
            }
        }
        i = i + 1;
    }
    assert(view_comps(cs@).take(cs.len() as int) =~= view_comps(cs@));
    out
}


/// The text of an optional string.
pub open spec fn opt_text(o: Option<String>) -> Option<Seq<char>> {
    match o {
        Some(s) => Some(s@),
        None => None,
    }
}

/// The text of an optional string slice.
pub open spec fn opt_str_text(o: Option<&str>) -> Option<Seq<char>> {
    match o {
        Some(s) => Some(s@),
        None => None,
    }
}

/// Appends a component.
pub fn push_component(out: &mut Vec<Component>, c: Component)
    ensures
        view_comps(final(out)@) == view_comps(old(out)@).push(c@),
{
    let ghost before = out@;
    out.push(c);
    assert(view_comps(out@) =~= view_comps(before).push(c@)) by {
        assert forall|j: int| 0 <= j < out@.len() implies view_comps(out@)[j] == view_comps(
            before,
        ).push(c@)[j] by {
            if j < before.len() {
                assert(out@[j] == before[j]);
            }
        }
    }
}

} // verus!
