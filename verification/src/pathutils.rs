//! Lexical path utilities: normalization, file names and extensions, joins,
//! prefixes, and the decisions behind locating project roots and loosely given
//! paths.
use vstd::prelude::*;
use crate::components::{
    duplicate_components, has_prefix, push_component, push_text, unify_separators, parent_text,
    parent_text_exec, void_piece, cut_unit, head_len, last_sep_from, lemma_last_sep_from, trim_back,
    lemma_parse_concat, lemma_render_shape, part_comps, parts_comps, split_parts, head_comps,
    body_comps, comp_text, lemma_parts_comps_single, starts_with_components, chars_of, components, lemma_parse_render, opt_str_text, opt_text, lemma_parse_wf, parse_path, render, render_components, valid_name,
    view_comps, wf_comps, Comp, Component, lemma_parent_text_parse, lemma_push_text_parse,
};

verus! {

pub open spec fn is_absolute_comps(cs: Seq<Comp>) -> bool {
    cs.len() > 0 && cs[0] == Comp::RootDir
}

/// One step of lexical normalization: `.` is dropped, `..` removes a preceding
/// name, stays in a relative path that has no name to remove, and is dropped
/// at the root.
pub open spec fn normalize_step(out: Seq<Comp>, c: Comp) -> Seq<Comp> {
    match c {
        Comp::CurDir => out,
        Comp::RootDir => seq![Comp::RootDir],
        Comp::ParentDir => {
            if out.len() > 0 && out.last() is Normal {
                out.drop_last()
            } else if !is_absolute_comps(out) {
                out.push(Comp::ParentDir)
            } else {
                out
            }
        },
        Comp::Normal(_) => out.push(c),
    }
}

/// Normalizes `cs` step by step, starting from `start`.
pub open spec fn normalize_fold(start: Seq<Comp>, cs: Seq<Comp>) -> Seq<Comp>
    decreases cs.len(),
{
    if cs.len() == 0 {
        start
    } else {
        normalize_step(normalize_fold(start, cs.drop_last()), cs.last())
    }
}

pub open spec fn tilde() -> Comp {
    Comp::Normal(seq!['~'])
}

/// Lexical normalization of a component sequence; a leading `~` stands for the
/// home directory where one is known.
pub open spec fn normalize_comps(cs: Seq<Comp>, home: Option<Seq<Comp>>) -> Seq<Comp> {
    if cs.len() > 0 && cs[0] == tilde() && home is Some {
        normalize_fold(home->0, cs.drop_first())
    } else {
        normalize_fold(seq![], cs)
    }
}

pub open spec fn home_comps(home: Option<Seq<char>>) -> Option<Seq<Comp>> {
    match home {
        Some(h) => Some(parse_path(h)),
        None => None,
    }
}

/// One step of lexical normalization on the text of a path, as `PathBuf`
/// edits it: `.` changes nothing, `..` pops a trailing name (or is pushed in a
/// relative path without one, or dropped at the root), a name is pushed.
pub open spec fn text_step(t: Seq<char>, c: Comp) -> Seq<char> {
    match c {
        Comp::CurDir => t,
        Comp::RootDir => seq!['/'],
        Comp::ParentDir => {
            let cs = parse_path(t);
            if cs.len() > 0 && cs.last() is Normal {
                parent_text(t)
            } else if !is_absolute_comps(cs) {
                push_text(t, seq!['.', '.'])
            } else {
                t
            }
        },
        Comp::Normal(n) => push_text(t, n),
    }
}

/// Normalizes `cs` step by step on a text, starting from `start`.
pub open spec fn text_fold(start: Seq<char>, cs: Seq<Comp>) -> Seq<char>
    decreases cs.len(),
{
    if cs.len() == 0 {
        start
    } else {
        text_step(text_fold(start, cs.drop_last()), cs.last())
    }
}

/// The text of the normalized form of the path text `p`: a leading `~` with
/// a known home directory starts the text from the home directory's text as
/// given; otherwise it is the text of the normalized components.
pub open spec fn normalized_text(p: Seq<char>, home: Option<Seq<char>>) -> Seq<char> {
    let cs = parse_path(p);
    if cs.len() > 0 && cs[0] == tilde() && home is Some {
        text_fold(home->0, cs.drop_first())
    } else {
        render(normalize_fold(seq![], cs))
    }
}

/// The normal form: well formed, no `.`, every `..` before every name, and no
/// `..` in an absolute path.
pub open spec fn normal_form(cs: Seq<Comp>) -> bool {
    &&& wf_comps(cs)
    &&& forall|i: int| 0 <= i < cs.len() ==> #[trigger] cs[i] != Comp::CurDir
    &&& forall|i: int, j: int|
        0 <= i < j < cs.len() && #[trigger] cs[j] == Comp::ParentDir ==> #[trigger] cs[i]
            == Comp::ParentDir
    &&& is_absolute_comps(cs) ==> forall|i: int| 0 <= i < cs.len() ==> #[trigger] cs[i] != Comp::ParentDir
}

pub proof fn lemma_wf_prefix(cs: Seq<Comp>, k: int)
    requires
        wf_comps(cs),
        0 <= k <= cs.len(),
    ensures
        wf_comps(cs.take(k)),
{
    assert forall|i: int| 0 <= i < cs.take(k).len() implies match #[trigger] cs.take(k)[i] {
        Comp::RootDir => i == 0,
        Comp::CurDir => i == 0,
        Comp::ParentDir => true,
        Comp::Normal(n) => valid_name(n),
    } by {
        assert(cs.take(k)[i] == cs[i]);
    }
}

pub(crate) proof fn lemma_step_wf(out: Seq<Comp>, c: Comp)
    requires
        wf_comps(out),
        match c {
            Comp::RootDir => true,
            Comp::CurDir => true,
            Comp::ParentDir => true,
            Comp::Normal(n) => valid_name(n),
        },
    ensures
        wf_comps(normalize_step(out, c)),
{
    let r = normalize_step(out, c);
    if out.len() > 0 && c == Comp::ParentDir && out.last() is Normal {
        lemma_wf_prefix(out, out.len() - 1);
        assert(out.drop_last() =~= out.take(out.len() - 1));
    } else {
        assert forall|i: int| 0 <= i < r.len() implies match #[trigger] r[i] {
            Comp::RootDir => i == 0,
            Comp::CurDir => i == 0,
            Comp::ParentDir => true,
            Comp::Normal(n) => valid_name(n),
        } by {
            if i < out.len() && !(c is RootDir) {
                assert(r[i] == out[i]);
            }
        }
    }
}

/// Normalizing a body of names and parents onto a well-formed start stays well formed.
pub proof fn lemma_fold_wf(start: Seq<Comp>, cs: Seq<Comp>)
    requires
        wf_comps(start),
        wf_comps(cs),
    ensures
        wf_comps(normalize_fold(start, cs)),
    decreases cs.len(),
{
    if cs.len() > 0 {
        lemma_wf_prefix(cs, cs.len() - 1);
        assert(cs.drop_last() =~= cs.take(cs.len() - 1));
        lemma_fold_wf(start, cs.drop_last());
        assert(cs[cs.len() - 1] == cs.last());
        lemma_step_wf(normalize_fold(start, cs.drop_last()), cs.last());
    }
}

proof fn lemma_normal_form_prefix(cs: Seq<Comp>, k: int)
    requires
        normal_form(cs),
        0 <= k <= cs.len(),
    ensures
        normal_form(cs.take(k)),
{
    lemma_wf_prefix(cs, k);
    let t = cs.take(k);
    assert forall|i: int, j: int|
        0 <= i < j < t.len() && #[trigger] t[j] == Comp::ParentDir implies #[trigger] t[i]
        == Comp::ParentDir by {
        assert(t[j] == cs[j]);
        assert(t[i] == cs[i]);
    }
    assert forall|i: int| 0 <= i < t.len() implies #[trigger] t[i] != Comp::CurDir by {
        assert(t[i] == cs[i]);
    }
    if is_absolute_comps(t) {
        assert(t[0] == cs[0]);
        assert forall|i: int| 0 <= i < t.len() implies #[trigger] t[i] != Comp::ParentDir by {
            assert(t[i] == cs[i]);
        }
    }
}

proof fn lemma_step_normal_form(out: Seq<Comp>, c: Comp)
    requires
        normal_form(out),
        c == Comp::RootDir ==> out.len() == 0,
        match c {
            Comp::Normal(n) => valid_name(n),
            _ => true,
        },
    ensures
        normal_form(normalize_step(out, c)),
{
    lemma_step_wf(out, c);
    let r = normalize_step(out, c);
    match c {
        Comp::CurDir => {},
        Comp::RootDir => {
            assert(r =~= seq![Comp::RootDir]);
        },
        Comp::ParentDir => {
            if out.len() > 0 && out.last() is Normal {
                lemma_normal_form_prefix(out, out.len() - 1);
                assert(out.drop_last() =~= out.take(out.len() - 1));
            } else if !is_absolute_comps(out) {
                assert forall|i: int| 0 <= i < out.len() implies out[i] == Comp::ParentDir by {
                    let l = out.len() - 1;
                    assert(out[l] == out.last());
                    if out[l] != Comp::ParentDir {
                        assert(out[l] != Comp::CurDir);
                        if l == 0 {
                            assert(out[0] != Comp::RootDir);
                        } else {
                            assert(!(out[l] is RootDir));
                        }
                    }
                    if i < l {
                        assert(out[l] == Comp::ParentDir);
                    }
                }
                assert forall|i: int| 0 <= i < r.len() implies #[trigger] r[i]
                    == Comp::ParentDir by {
                    if i < out.len() {
                        assert(r[i] == out[i]);
                    }
                }
                if r.len() > 1 {
                    assert(r[0] == out[0]);
                }
            }
        },
        Comp::Normal(n) => {
            assert forall|i: int, j: int|
                0 <= i < j < r.len() && #[trigger] r[j] == Comp::ParentDir implies #[trigger] r[i]
                == Comp::ParentDir by {
                assert(r[j] == out[j]);
                assert(r[i] == out[i]);
            }
            assert forall|i: int| 0 <= i < r.len() implies #[trigger] r[i] != Comp::CurDir by {
                if i < out.len() {
                    assert(r[i] == out[i]);
                }
            }
            if is_absolute_comps(r) {
                if out.len() > 0 {
                    assert(r[0] == out[0]);
                }
                assert forall|i: int| 0 <= i < r.len() implies #[trigger] r[i]
                    != Comp::ParentDir by {
                    if i < out.len() {
                        assert(r[i] == out[i]);
                    }
                }
            }
        },
    }
}

/// Normalizing a well-formed sequence from nothing yields the normal form.
pub proof fn lemma_fold_normal_form(cs: Seq<Comp>)
    requires
        wf_comps(cs),
    ensures
        normal_form(normalize_fold(seq![], cs)),
    decreases cs.len(),
{
    if cs.len() > 0 {
        let c = cs.last();
        lemma_wf_prefix(cs, cs.len() - 1);
        assert(cs.drop_last() =~= cs.take(cs.len() - 1));
        lemma_fold_normal_form(cs.drop_last());
        assert(cs[cs.len() - 1] == c);
        if c == Comp::RootDir {
            assert(cs.len() == 1);
            assert(cs.drop_last() =~= Seq::<Comp>::empty());
        }
        lemma_step_normal_form(normalize_fold(seq![], cs.drop_last()), c);
    } else {
        assert(normal_form(Seq::<Comp>::empty()));
    }
}

/// A sequence in normal form is left as it is by normalization.
pub proof fn lemma_fold_fixpoint(cs: Seq<Comp>)
    requires
        normal_form(cs),
    ensures
        normalize_fold(seq![], cs) == cs,
    decreases cs.len(),
{
    if cs.len() > 0 {
        let c = cs.last();
        let cs0 = cs.drop_last();
        lemma_normal_form_prefix(cs, cs.len() - 1);
        assert(cs0 =~= cs.take(cs.len() - 1));
        lemma_fold_fixpoint(cs0);
        let l = cs.len() - 1;
        assert(cs[l] == c);
        match c {
            Comp::RootDir => {
                assert(l == 0);
                assert(cs =~= seq![Comp::RootDir]);
            },
            Comp::CurDir => {},
            Comp::ParentDir => {
                assert forall|i: int| 0 <= i < cs0.len() implies cs0[i] == Comp::ParentDir by {
                    assert(cs0[i] == cs[i]);
                }
                if cs0.len() > 0 {
                    assert(cs0.last() == cs0[cs0.len() - 1]);
                    assert(cs0[0] == Comp::ParentDir);
                }
                assert(!is_absolute_comps(cs0));
                assert(cs0.push(c) =~= cs);
            },
            Comp::Normal(_) => {
                assert(cs0.push(c) =~= cs);
            },
        }
    }
}

/// Normalizing the normal form of a path, without a home directory, changes nothing.
pub proof fn lemma_normalize_idempotent(p: Seq<char>)
    ensures
        normalized_text(normalized_text(p, None), None) == normalized_text(p, None),
        normal_form(parse_path(normalized_text(p, None))),
{
    let cs = parse_path(p);
    lemma_parse_wf(p);
    lemma_fold_normal_form(cs);
    let n = normalize_fold(seq![], cs);
    assert(normalize_comps(cs, None) == n);
    lemma_parse_render(n);
    lemma_fold_fixpoint(n);
}

proof fn lemma_fold_normal_form_from(start: Seq<Comp>, cs: Seq<Comp>)
    requires
        normal_form(start),
        forall|i: int|
            0 <= i < cs.len() ==> match #[trigger] cs[i] {
                Comp::RootDir => false,
                Comp::Normal(n) => valid_name(n),
                _ => true,
            },
    ensures
        normal_form(normalize_fold(start, cs)),
    decreases cs.len(),
{
    if cs.len() > 0 {
        let c = cs.last();
        let cs0 = cs.drop_last();
        assert forall|i: int| 0 <= i < cs0.len() implies match #[trigger] cs0[i] {
            Comp::RootDir => false,
            Comp::Normal(n) => valid_name(n),
            _ => true,
        } by {
            assert(cs0[i] == cs[i]);
        }
        lemma_fold_normal_form_from(start, cs0);
        assert(cs[cs.len() - 1] == c);
        lemma_step_normal_form(normalize_fold(start, cs0), c);
    }
}

proof fn lemma_last_unit_is_last_name(c: Seq<Comp>, b: int)
    requires
        wf_comps(c),
        c.len() > 0,
        c.last() is ParentDir || c.last() is Normal,
        0 <= b <= 1,
        render(c).len() > b,
        b == 1 ==> c.len() > 1 && (c[0] == Comp::RootDir || c[0] == Comp::CurDir),
    ensures
        !void_piece(cut_unit(render(c), b).1),
{
    let r = render(c);
    let c0 = c.drop_last();
    let x = comp_text(c.last());
    let l = c.len() - 1;
    assert(c[l] == c.last());
    assert(!x.contains('/') && x.len() > 0 && x != seq!['.']) by {
        if let Comp::Normal(n) = c.last() {
            assert(valid_name(n));
        } else {
            assert(x =~= seq!['.', '.']);
            if x.contains('/') {
                let k = choose|k: int| 0 <= k < x.len() && x[k] == '/';
            }
            assert(x.len() == 2);
        }
    }
    assert(x[0] != '/') by {
        if x[0] == '/' {
            assert(x.contains('/'));
        }
    }
    lemma_last_sep_from(r, b);
    if c0.len() == 0 {
        assert(render(c0) == Seq::<char>::empty());
        assert(r =~= x);
        assert(b == 0);
        match last_sep_from(r, b) {
            Some(i) => {
                assert(r[i] == '/');
                assert(x.contains('/'));
            },
            None => {
                assert(r.skip(0) =~= x);
            },
        }
    } else {
        assert(wf_comps(c0)) by {
            lemma_wf_prefix(c, l);
            assert(c0 =~= c.take(l));
        }
        lemma_render_shape(c0);
        let r0 = render(c0);
        if r0.last() == '/' {
            assert(c0 =~= seq![Comp::RootDir]);
            assert(r0 =~= seq!['/']) by {
                assert(c0.drop_last() =~= Seq::<Comp>::empty());
                assert(Seq::<char>::empty() + seq!['/'] =~= seq!['/']);
            }
            assert(r =~= r0 + x);
            assert(r[0] == '/');
            match last_sep_from(r, b) {
                Some(i) => {
                    if i >= 1 {
                        assert(r[i] == x[i - 1]);
                        assert(x.contains('/'));
                    }
                    assert(r.skip(i + 1) =~= x);
                },
                None => {
                    assert(b == 1);
                    assert(r.skip(b) =~= x);
                },
            }
        } else {
            assert(r =~= r0 + seq!['/'] + x);
            let p = r0.len() as int;
            assert(r[p] == '/');
            assert(p >= b) by {
                assert(r0.len() > 0);
                if b == 1 {
                    assert(p >= 1);
                }
            }
            match last_sep_from(r, b) {
                Some(i) => {
                    if i > p {
                        assert(r[i] == x[i - p - 1]);
                        assert(x.contains('/'));
                    }
                    assert(i == p);
                    assert(r.skip(i + 1) =~= x);
                },
                None => {
                    assert(false);
                },
            }
        }
    }
}

/// Popping the text of a well-formed sequence that ends in a name gives the
/// text of the sequence without it.
pub proof fn lemma_parent_text_render(c: Seq<Comp>)
    requires
        wf_comps(c),
        c.len() > 0,
        c.last() is Normal,
    ensures
        parent_text(render(c)) == render(c.drop_last()),
{
    let c0 = c.drop_last();
    let t = render(c);
    let l = c.len() - 1;
    assert(c[l] == c.last());
    lemma_parse_render(c);
    lemma_parse_wf(t);
    let b = head_len(t);
    assert(b == 1 <==> (c[0] == Comp::RootDir || c[0] == Comp::CurDir)) by {
        let h = head_comps(t);
        assert(c == h + parts_comps(split_parts(t)));
        assert(body_comps(c.skip(h.len() as int)));
        if h.len() == 0 {
            assert(c.skip(0) =~= c);
            assert(c.skip(0)[0] == c[0]);
        } else {
            assert(c[0] == h[0]);
        }
    }
    lemma_render_shape(c);
    assert(t.len() > b) by {
        if b == 1 && t.len() == 1 {
            assert(c.len() == 1 || t.len() > 1);
        }
    }
    lemma_last_unit_is_last_name(c, b);
    assert(trim_back(t, b) == t);
    let x = comp_text(c.last());
    lemma_last_sep_from(t, b);
    if c0.len() == 0 {
        assert(t =~= x);
        assert(b == 0);
        match last_sep_from(t, b) {
            Some(i) => {
                assert(x[i] == '/');
                if let Comp::Normal(n) = c.last() {
                    assert(n.contains('/'));
                }
            },
            None => {},
        }
        assert(cut_unit(t, 0).0 =~= Seq::<char>::empty());
        assert(render(c0) == Seq::<char>::empty());
    } else {
        assert(wf_comps(c0)) by {
            lemma_wf_prefix(c, l);
            assert(c0 =~= c.take(l));
        }
        lemma_render_shape(c0);
        let r0 = render(c0);
        assert(c0[0] == c[0]);
        let n = match c.last() {
            Comp::Normal(n) => n,
            _ => seq![],
        };
        assert(valid_name(n));
        assert(x == n);
        if r0.last() == '/' {
            assert(c0 =~= seq![Comp::RootDir]);
            assert(r0 =~= seq!['/']) by {
                assert(c0.drop_last() =~= Seq::<Comp>::empty());
                assert(Seq::<char>::empty() + seq!['/'] =~= seq!['/']);
            }
            assert(t =~= r0 + x);
            match last_sep_from(t, b) {
                Some(i) => {
                    assert(t[i] == x[i - 1]);
                    assert(n.contains('/'));
                },
                None => {},
            }
            assert(cut_unit(t, 1).0 =~= seq!['/']);
        } else {
            assert(t =~= r0 + seq!['/'] + x);
            let p = r0.len() as int;
            assert(t[p] == '/');
            match last_sep_from(t, b) {
                Some(i) => {
                    if i > p {
                        assert(t[i] == x[i - p - 1]);
                        assert(n.contains('/'));
                    }
                },
                None => {
                    assert(false);
                },
            }
            assert(cut_unit(t, b).0 =~= r0);
            if r0.len() > b {
                assert(c0.last() is ParentDir || c0.last() is Normal) by {
                    let l0 = c0.len() - 1;
                    assert(c0[l0] == c0.last());
                    if l0 == 0 {
                        assert(c0[0] == c[0]);
                        if c[0] == Comp::RootDir || c[0] == Comp::CurDir {
                            assert(r0.len() == 1) by {
                                assert(c0.drop_last() =~= Seq::<Comp>::empty());
                                assert(c0.last() == c0[0]);
                                assert(render(c0.drop_last()) =~= Seq::<char>::empty());
                                assert(Seq::<char>::empty() + comp_text(c0[0]) =~= comp_text(c0[0]));
                            }
                        }
                    }
                }
                assert(b == 1 ==> c0.len() > 1 && (c0[0] == Comp::RootDir || c0[0] == Comp::CurDir))
                    by {
                    if b == 1 && c0.len() == 1 {
                        assert(c0.drop_last() =~= Seq::<Comp>::empty());
                        assert(Seq::<char>::empty() + comp_text(c0[0]) =~= comp_text(c0[0]));
                        assert(r0 == comp_text(c0[0]));
                    }
                }
                lemma_last_unit_is_last_name(c0, b);
            }
        }
    }
}

/// Normalizing on the text of a well-formed start gives the text of the
/// normalized components.
pub proof fn lemma_text_fold_render(start: Seq<Comp>, cs: Seq<Comp>)
    requires
        wf_comps(start),
        forall|i: int|
            0 <= i < cs.len() ==> match #[trigger] cs[i] {
                Comp::RootDir => false,
                Comp::Normal(n) => valid_name(n),
                _ => true,
            },
    ensures
        text_fold(render(start), cs) == render(normalize_fold(start, cs)),
        wf_comps(normalize_fold(start, cs)),
    decreases cs.len(),
{
    if cs.len() > 0 {
        let cs0 = cs.drop_last();
        let c = cs.last();
        assert forall|i: int| 0 <= i < cs0.len() implies match #[trigger] cs0[i] {
            Comp::RootDir => false,
            Comp::Normal(n) => valid_name(n),
            _ => true,
        } by {
            assert(cs0[i] == cs[i]);
        }
        lemma_text_fold_render(start, cs0);
        let out = normalize_fold(start, cs0);
        assert(cs[cs.len() - 1] == c);
        lemma_step_wf(out, c);
        lemma_parse_render(out);
        match c {
            Comp::Normal(n) => {
                assert(out.push(c).drop_last() =~= out);
            },
            Comp::ParentDir => {
                if out.len() > 0 && out.last() is Normal {
                    lemma_parent_text_render(out);
                } else if !is_absolute_comps(out) {
                    assert(out.push(c).drop_last() =~= out);
                }
            },
            _ => {},
        }
    }
}

/// With a home directory that is absolute and in normal form, normalizing
/// the normal form of a path changes nothing, unless that normal form begins
/// with a `~` that the second pass would expand.
pub proof fn lemma_normalize_idempotent_with_home(p: Seq<char>, h: Seq<char>)
    requires
        h == render(parse_path(h)),
        normal_form(parse_path(h)),
        is_absolute_comps(parse_path(h)),
        !(normalize_comps(parse_path(p), Some(parse_path(h))).len() > 0 && normalize_comps(
            parse_path(p),
            Some(parse_path(h)),
        )[0] == tilde()),
    ensures
        normalized_text(normalized_text(p, Some(h)), Some(h)) == normalized_text(p, Some(h)),
{
    let cs = parse_path(p);
    let hc = parse_path(h);
    lemma_parse_wf(p);
    let n = normalize_comps(cs, Some(hc));
    if cs.len() > 0 && cs[0] == tilde() {
        let rest = cs.drop_first();
        assert forall|i: int| 0 <= i < rest.len() implies match #[trigger] rest[i] {
            Comp::RootDir => false,
            Comp::Normal(x) => valid_name(x),
            _ => true,
        } by {
            assert(rest[i] == cs[i + 1]);
        }
        lemma_fold_normal_form_from(hc, rest);
        lemma_text_fold_render(hc, rest);
    } else {
        lemma_fold_normal_form(cs);
    }
    assert(home_comps(Some(h)) == Some(hc));
    lemma_parse_render(n);
    lemma_fold_fixpoint(n);
}

/// Normalizing on any path text reads back as normalizing its components.
pub proof fn lemma_text_fold_parse(start: Seq<char>, cs: Seq<Comp>)
    requires
        forall|i: int|
            0 <= i < cs.len() ==> match #[trigger] cs[i] {
                Comp::RootDir => false,
                Comp::Normal(n) => valid_name(n),
                _ => true,
            },
    ensures
        parse_path(text_fold(start, cs)) == normalize_fold(parse_path(start), cs),
    decreases cs.len(),
{
    if cs.len() > 0 {
        let cs0 = cs.drop_last();
        let c = cs.last();
        assert forall|i: int| 0 <= i < cs0.len() implies match #[trigger] cs0[i] {
            Comp::RootDir => false,
            Comp::Normal(n) => valid_name(n),
            _ => true,
        } by {
            assert(cs0[i] == cs[i]);
        }
        lemma_text_fold_parse(start, cs0);
        assert(cs[cs.len() - 1] == c);
        let t = text_fold(start, cs0);
        match c {
            Comp::Normal(n) => {
                lemma_push_text_parse(t, c);
            },
            Comp::ParentDir => {
                let out = parse_path(t);
                if out.len() > 0 && out.last() is Normal {
                    lemma_parent_text_parse(t);
                } else if !is_absolute_comps(out) {
                    lemma_push_text_parse(t, c);
                }
            },
            _ => {},
        }
    }
}

/// The text of a normalized path reads back as the normalized components,
/// however the home directory is spelled.
pub proof fn lemma_normalized_text_components(p: Seq<char>, home: Option<Seq<char>>)
    ensures
        parse_path(normalized_text(p, home)) == normalize_comps(parse_path(p), home_comps(home)),
{
    let cs = parse_path(p);
    lemma_parse_wf(p);
    if cs.len() > 0 && cs[0] == tilde() && home is Some {
        let h = home->0;
        let rest = cs.drop_first();
        assert forall|i: int| 0 <= i < rest.len() implies match #[trigger] rest[i] {
            Comp::RootDir => false,
            Comp::Normal(x) => valid_name(x),
            _ => true,
        } by {
            assert(rest[i] == cs[i + 1]);
        }
        lemma_text_fold_parse(h, rest);
    } else {
        lemma_fold_wf(seq![], cs);
        lemma_parse_render(normalize_fold(seq![], cs));
    }
}

/// With a home directory that is absolute and holds no `..`, however it is
/// spelled, normalizing the normalized form of a path gives the same path
/// (the same components), unless that form begins with a `~` that the second
/// pass would expand.
pub proof fn lemma_normalize_idempotent_components(p: Seq<char>, h: Seq<char>)
    requires
        is_absolute_comps(parse_path(h)),
        forall|i: int| 0 <= i < parse_path(h).len() ==> #[trigger] parse_path(h)[i] != Comp::ParentDir,
        !(normalize_comps(parse_path(p), Some(parse_path(h))).len() > 0 && normalize_comps(
            parse_path(p),
            Some(parse_path(h)),
        )[0] == tilde()),
    ensures
        parse_path(normalized_text(normalized_text(p, Some(h)), Some(h))) == parse_path(
            normalized_text(p, Some(h)),
        ),
{
    let cs = parse_path(p);
    let hc = parse_path(h);
    lemma_parse_wf(p);
    lemma_parse_wf(h);
    assert(normal_form(hc)) by {
        assert forall|i: int| 0 <= i < hc.len() implies #[trigger] hc[i] != Comp::CurDir by {
            if i == 0 {
                assert(hc[0] == Comp::RootDir);
            }
        }
    }
    assert(home_comps(Some(h)) == Some(hc));
    let n = normalize_comps(cs, Some(hc));
    lemma_normalized_text_components(p, Some(h));
    let q = normalized_text(p, Some(h));
    assert(parse_path(q) == n);
    lemma_normalized_text_components(q, Some(h));
    if cs.len() > 0 && cs[0] == tilde() {
        let rest = cs.drop_first();
        assert forall|i: int| 0 <= i < rest.len() implies match #[trigger] rest[i] {
            Comp::RootDir => false,
            Comp::Normal(x) => valid_name(x),
            _ => true,
        } by {
            assert(rest[i] == cs[i + 1]);
        }
        lemma_fold_normal_form_from(hc, rest);
    } else {
        lemma_fold_normal_form(cs);
    }
    lemma_fold_fixpoint(n);
}

fn normalize_push(out: &mut Vec<Component>, c: &Component)
    ensures
        view_comps(final(out)@) == normalize_step(view_comps(old(out)@), c@),
{
    let ghost o = view_comps(out@);
    match c {
        Component::CurDir => {},
        Component::RootDir => {
            out.clear();
            out.push(Component::RootDir);
            assert(view_comps(out@) =~= seq![Comp::RootDir]);
        },
        Component::ParentDir => {
            let len = out.len();
            let last_is_name = len > 0 && match &out[len - 1] {
                Component::Normal(_) => true,
                _ => false,
            };
            if len > 0 {
                assert(o.last() == out@[len - 1]@);
            }
            if last_is_name {
                out.pop();
                assert(view_comps(out@) =~= o.drop_last());
            } else {
                let absolute = len > 0 && match &out[0] {
                    Component::RootDir => true,
                    _ => false,
                };
                if len > 0 {
                    assert(o[0] == out@[0]@);
                }
                if !absolute {
                    out.push(Component::ParentDir);
                    assert(view_comps(out@) =~= o.push(Comp::ParentDir));
                }
            }
        },
        Component::Normal(_) => {
            out.push(c.duplicate());
            assert(view_comps(out@) =~= o.push(c@));
        },
    }
}

/// Normalizes `cs[from..]` onto `out`.
fn normalize_onto(out: &mut Vec<Component>, cs: &Vec<Component>, from: usize)
    requires
        from <= cs.len(),
    ensures
        view_comps(final(out)@) == normalize_fold(
            view_comps(old(out)@),
            view_comps(cs@).skip(from as int),
        ),
{
    let ghost start = view_comps(out@);
    let ghost rest = view_comps(cs@).skip(from as int);
    let mut i = from;
    assert(rest.take(0) =~= Seq::<Comp>::empty());
    while i < cs.len()
        invariant
            from <= i <= cs.len(),
            rest == view_comps(cs@).skip(from as int),
            view_comps(out@) == normalize_fold(start, rest.take(i - from)),
        decreases cs.len() - i,
    {
        let k = i - from;
        assert(rest.take(k + 1).drop_last() =~= rest.take(k as int));
        assert(rest.take(k + 1).last() == cs@[i as int]@);
        normalize_push(out, &cs[i]);
        i = i + 1;
    }
    assert(rest.take(cs.len() - from) =~= rest);
}

/// Lexically normalizes a path: `.` components are dropped, `..` removes the
/// preceding name (or stays where a relative path has none, or is dropped at
/// the root), and a leading `~` becomes the home directory where `home` is
/// given. Relative paths stay relative.
pub fn normalize_path(p: &str, home: Option<&str>) -> (r: String)
    ensures
        r@ == normalized_text(p@, opt_str_text(home)),
{
    let cs = components(p);
    let ghost cv = view_comps(cs@);
    proof {
        lemma_parse_wf(p@);
    }
    let leading_tilde = cs.len() > 0 && is_tilde(&cs[0]);
    if cs.len() > 0 {
        assert(cv[0] == cs@[0]@);
    }
    match home {
        Some(h) => {
            if leading_tilde {
                let mut t = h.to_owned();
                let ghost rest = cv.drop_first();
                let mut i: usize = 1;
                assert(rest.take(0) =~= Seq::<Comp>::empty());
                while i < cs.len()
                    invariant
                        1 <= i <= cs.len(),
                        cv == view_comps(cs@),
                        rest == cv.drop_first(),
                        t@ == text_fold(h@, rest.take(i - 1)),
                    decreases cs.len() - i,
                {
                    assert(rest.take(i as int).drop_last() =~= rest.take(i - 1));
                    assert(rest.take(i as int).last() == cs@[i as int]@);
                    t = text_step_exec(t, &cs[i]);
                    i = i + 1;
                }
                assert(rest.take(cs.len() - 1) =~= rest);
                return t;
            }
        },
        None => {},
    }
    let mut out: Vec<Component> = Vec::new();
    assert(view_comps(out@) =~= Seq::<Comp>::empty());
    normalize_onto(&mut out, &cs, 0);
    assert(cv.skip(0) =~= cv);
    proof {
        lemma_fold_wf(seq![], cv);
    }
    render_components(&out)
}

/// One step of normalization on the text of a path.
fn text_step_exec(t: String, c: &Component) -> (r: String)
    ensures
        r@ == text_step(t@, c@),
{
    match c {
        Component::CurDir => t,
        Component::RootDir => {
            proof {
                reveal_strlit("/");
            }
            let r = String::from_str("/");
            assert(r@ =~= seq!['/']);
            r
        },
        Component::ParentDir => {
            let cs = components(t.as_str());
            let ghost cv = view_comps(cs@);
            let n = cs.len();
            if n > 0 {
                assert(cv.last() == cs@[n - 1]@);
                assert(cv[0] == cs@[0]@);
            }
            let last_is_name = n > 0 && match &cs[n - 1] {
                Component::Normal(_) => true,
                _ => false,
            };
            if last_is_name {
                return parent_text_exec(t.as_str());
            }
            let absolute = n > 0 && match &cs[0] {
                Component::RootDir => true,
                _ => false,
            };
            if !absolute {
                proof {
                    reveal_strlit("..");
                }
                let dots = String::from_str("..");
                assert(dots@ =~= seq!['.', '.']);
                push_text_exec(t, dots)
            } else {
                t
            }
        },
        Component::Normal(n) => push_text_exec(t, n.clone()),
    }
}

fn is_tilde(c: &Component) -> (r: bool)
    ensures
        r == (c@ == tilde()),
{
    match c {
        Component::Normal(n) => {
            let t = String::from_str("~");
            proof {
                reveal_strlit("~");
                assert("~"@ =~= seq!['~']);
            }
            n.eq(&t)
        },
        _ => false,
    }
}

/// The normalized components of a component sequence.
pub fn normalize_components(cs: &Vec<Component>, home: Option<&str>) -> (r: Vec<Component>)
    ensures
        view_comps(r@) == normalize_comps(
            view_comps(cs@),
            home_comps(opt_str_text(home)),
        ),
        wf_comps(view_comps(cs@)) ==> wf_comps(view_comps(r@)),
{
    let ghost v = view_comps(cs@);
    let ghost hv = home_comps(opt_str_text(home));
    let leading_tilde = cs.len() > 0 && is_tilde(&cs[0]);
    if cs.len() > 0 {
        assert(v[0] == cs@[0]@);
    }
    let mut out: Vec<Component> = Vec::new();
    let mut from: usize = 0;
    match home {
        Some(h) => {
            if leading_tilde {
                out = components(h);
                from = 1;
                proof {
                    lemma_parse_wf(h@);
                }
            }
        },
        None => {},
    }
    assert(view_comps(out@) =~= (if leading_tilde && home is Some { hv->0 } else { seq![] }));
    normalize_onto(&mut out, cs, from);
    assert(v.skip(0) =~= v);
    assert(v.len() > 0 ==> v.skip(1) =~= v.drop_first());
    proof {
        if wf_comps(v) {
            assert(wf_comps(v.skip(from as int))) by {
                let t = v.skip(from as int);
                assert forall|i: int| 0 <= i < t.len() implies match #[trigger] t[i] {
                    Comp::RootDir => i == 0,
                    Comp::CurDir => i == 0,
                    Comp::ParentDir => true,
                    Comp::Normal(n) => valid_name(n),
                } by {
                    assert(t[i] == v[i + from]);
                }
            }
            let st = if leading_tilde && home is Some { hv->0 } else { seq![] };
            lemma_fold_wf(st, v.skip(from as int));
        }
    }
    out
}


/// The file name of a path: its last component, where that is a name.
pub open spec fn file_name(cs: Seq<Comp>) -> Option<Seq<char>> {
    if cs.len() > 0 {
        match cs.last() {
            Comp::Normal(n) => Some(n),
            _ => None,
        }
    } else {
        None
    }
}

/// The position of the last `.` in a name.
pub open spec fn last_dot(n: Seq<char>) -> Option<int>
    decreases n.len(),
{
    if n.len() == 0 {
        None
    } else if n.last() == '.' {
        Some(n.len() - 1)
    } else {
        last_dot(n.drop_last())
    }
}

/// Where a name splits into stem and extension: at its last `.`, unless that
/// dot is its first character.
pub open spec fn extension_dot(n: Seq<char>) -> Option<int> {
    match last_dot(n) {
        Some(i) => if i > 0 {
            Some(i)
        } else {
            None
        },
        None => None,
    }
}

/// The extension of a name, as `Path::extension` gives it.
pub open spec fn name_extension(n: Seq<char>) -> Option<Seq<char>> {
    match extension_dot(n) {
        Some(i) => Some(n.skip(i + 1)),
        None => None,
    }
}

/// The stem of a name, as `Path::file_stem` gives it.
pub open spec fn name_stem(n: Seq<char>) -> Seq<char> {
    match extension_dot(n) {
        Some(i) => n.take(i),
        None => n,
    }
}

/// The extension of a path text.
pub open spec fn path_extension(p: Seq<char>) -> Option<Seq<char>> {
    match file_name(parse_path(p)) {
        Some(n) => name_extension(n),
        None => None,
    }
}

/// Whether a path has one of the given extensions; without a set of
/// extensions every path matches.
pub open spec fn matches_extension_spec(p: Seq<char>, extensions: Option<Seq<Seq<char>>>) -> bool {
    match extensions {
        None => true,
        Some(set) => match path_extension(p) {
            Some(e) => set.contains(e),
            None => false,
        },
    }
}

/// The texts of a sequence of strings.
pub open spec fn strs_view(v: Seq<String>) -> Seq<Seq<char>> {
    v.map_values(|s: String| s@)
}

proof fn lemma_last_dot_bounds(n: Seq<char>)
    ensures
        match last_dot(n) {
            Some(i) => 0 <= i < n.len() && n[i] == '.' && forall|j: int|
                i < j < n.len() ==> n[j] != '.',
            None => forall|j: int| 0 <= j < n.len() ==> n[j] != '.',
        },
    decreases n.len(),
{
    if n.len() > 0 {
        lemma_last_dot_bounds(n.drop_last());
        if n.last() != '.' {
            match last_dot(n.drop_last()) {
                Some(i) => {
                    assert forall|j: int| i < j < n.len() implies n[j] != '.' by {
                        if j < n.len() - 1 {
                            assert(n.drop_last()[j] == n[j]);
                        }
                    }
                    assert(n.drop_last()[i] == n[i]);
                },
                None => {
                    assert forall|j: int| 0 <= j < n.len() implies n[j] != '.' by {
                        if j < n.len() - 1 {
                            assert(n.drop_last()[j] == n[j]);
                        }
                    }
                },
            }
        }
    }
}

/// The position of the last `.` in the characters of a name.
fn find_last_dot(chars: &Vec<char>) -> (r: Option<usize>)
    ensures
        match r {
            Some(i) => last_dot(chars@) == Some(i as int),
            None => last_dot(chars@) is None,
        },
{
    let mut i = chars.len();
    assert(chars@.take(i as int) =~= chars@);
    while i > 0
        invariant
            i <= chars.len(),
            last_dot(chars@) == last_dot(chars@.take(i as int)),
        decreases i,
    {
        let ghost t = chars@.take(i as int);
        assert(t.drop_last() =~= chars@.take(i - 1));
        assert(t.last() == chars@[i - 1]);
        if chars[i - 1] == '.' {
            return Some(i - 1);
        }
        i = i - 1;
    }
    assert(chars@.take(0) =~= Seq::<char>::empty());
    None
}

/// The extension of a name.
pub fn extension_of_name(name: &str) -> (r: Option<String>)
    ensures
        opt_text(r) == name_extension(name@),
{
    let chars = chars_of(name);
    proof {
        lemma_last_dot_bounds(name@);
    }
    match find_last_dot(&chars) {
        Some(i) => {
            assert(last_dot(name@) == Some(i as int));
            assert(i < chars.len());
            if i > 0 {
                Some(name.substring_char(i + 1, chars.len()).to_owned())
            } else {
                None
            }
        },
        None => None,
    }
}

/// The stem of a name.
pub fn stem_of_name(name: &str) -> (r: String)
    ensures
        r@ == name_stem(name@),
{
    let chars = chars_of(name);
    proof {
        lemma_last_dot_bounds(name@);
    }
    match find_last_dot(&chars) {
        Some(i) => {
            if i > 0 {
                name.substring_char(0, i).to_owned()
            } else {
                name.to_owned()
            }
        },
        None => name.to_owned(),
    }
}

/// The extension of a path text.
pub fn path_extension_of(path: &str) -> (r: Option<String>)
    ensures
        opt_text(r) == path_extension(path@),
{
    let cs = components(path);
    let n = cs.len();
    if n == 0 {
        return None;
    }
    assert(view_comps(cs@).last() == cs@[n - 1]@);
    match &cs[n - 1] {
        Component::Normal(name) => extension_of_name(name.as_str()),
        _ => None,
    }
}

/// Whether a text occurs among the strings.
pub fn contains_text(list: &Vec<String>, t: &String) -> (r: bool)
    ensures
        r == strs_view(list@).contains(t@),
{
    let ghost v = strs_view(list@);
    let mut i: usize = 0;
    while i < list.len()
        invariant
            v == strs_view(list@),
            i <= list.len(),
            forall|j: int| 0 <= j < i ==> v[j] != t@,
        decreases list.len() - i,
    {
        if list[i].eq(t) {
            assert(v[i as int] == t@);
            return true;
        }
        i = i + 1;
    }
    false
}

/// Whether a path has one of the given extensions; without a set of
/// extensions every path matches.
pub fn matches_extension(path: &str, extensions: &Option<Vec<String>>) -> (r: bool)
    ensures
        r == matches_extension_spec(
            path@,
            match extensions {
                Some(v) => Some(strs_view(v@)),
                None => None,
            },
        ),
{
    match extensions {
        None => true,
        Some(set) => match path_extension_of(path) {
            Some(e) => contains_text(set, &e),
            None => false,
        },
    }
}

/// `Path::strip_prefix` on components: the rest of `path` after `base`.
pub open spec fn strip_prefix_comps(path: Seq<Comp>, base: Seq<Comp>) -> Option<Seq<Comp>> {
    if has_prefix(path, base) {
        Some(path.skip(base.len() as int))
    } else {
        None
    }
}

/// The components of `base` pushed with the relative or absolute `rel`: an
/// absolute `rel` replaces `base`, and a leading `.` of `rel` disappears
/// inside a nonempty `base`.
pub open spec fn join_comps(base: Seq<Comp>, rel: Seq<Comp>) -> Seq<Comp> {
    if rel.len() > 0 && rel[0] == Comp::RootDir {
        rel
    } else if base.len() > 0 && rel.len() > 0 && rel[0] == Comp::CurDir {
        base + rel.drop_first()
    } else {
        base + rel
    }
}

/// A file name with its extension replaced by `ext` (removed where `ext` is
/// empty).
pub open spec fn with_extension(name: Seq<char>, ext: Seq<char>) -> Seq<char> {
    if ext.len() > 0 {
        name_stem(name) + seq!['.'] + ext
    } else {
        name_stem(name)
    }
}

/// The text of `cs` after `PathBuf::set_extension(ext)`: the last name gets the
/// new extension; a path without a file name is left as it is.
pub open spec fn set_extension_text(cs: Seq<Comp>, ext: Seq<char>) -> Seq<char> {
    match file_name(cs) {
        Some(n) => push_text(render(cs.drop_last()), with_extension(n, ext)),
        None => render(cs),
    }
}

/// The rest of `path` after the components of `base`, where `base` is a prefix.
pub fn strip_prefix_components(path: &Vec<Component>, base: &Vec<Component>) -> (r: Option<
    Vec<Component>,
>)
    ensures
        match r {
            Some(v) => strip_prefix_comps(view_comps(path@), view_comps(base@)) == Some(
                view_comps(v@),
            ),
            None => strip_prefix_comps(view_comps(path@), view_comps(base@)) is None,
        },
{
    if !starts_with_components(path, base) {
        return None;
    }
    let ghost pv = view_comps(path@);
    let k = base.len();
    let mut out: Vec<Component> = Vec::new();
    let mut i = k;
    while i < path.len()
        invariant
            k <= i <= path.len(),
            pv == view_comps(path@),
            view_comps(out@) == pv.subrange(k as int, i as int),
        decreases path.len() - i,
    {
        push_component(&mut out, path[i].duplicate());
        assert(view_comps(out@) =~= pv.subrange(k as int, i + 1));
        i = i + 1;
    }
    assert(pv.subrange(k as int, path.len() as int) =~= pv.skip(k as int));
    Some(out)
}

pub(crate) proof fn lemma_wf_skip(cs: Seq<Comp>, k: int)
    requires
        wf_comps(cs),
        0 <= k <= cs.len(),
    ensures
        wf_comps(cs.skip(k)),
        k > 0 ==> forall|i: int| 0 <= i < cs.skip(k).len() ==> (#[trigger] cs.skip(k)[i]) is ParentDir
            || cs.skip(k)[i] is Normal,
{
    let t = cs.skip(k);
    assert forall|i: int| 0 <= i < t.len() implies match #[trigger] t[i] {
        Comp::RootDir => i == 0,
        Comp::CurDir => i == 0,
        Comp::ParentDir => true,
        Comp::Normal(n) => valid_name(n),
    } by {
        assert(t[i] == cs[i + k]);
    }
    if k > 0 {
        assert forall|i: int| 0 <= i < t.len() implies (#[trigger] t[i]) is ParentDir || t[i] is Normal by {
            assert(t[i] == cs[i + k]);
        }
    }
}

pub(crate) proof fn lemma_join_wf(base: Seq<Comp>, rel: Seq<Comp>)
    requires
        wf_comps(base),
        wf_comps(rel),
    ensures
        wf_comps(join_comps(base, rel)),
{
    let j = join_comps(base, rel);
    if rel.len() > 0 && rel[0] == Comp::RootDir {
    } else if base.len() > 0 && rel.len() > 0 && rel[0] == Comp::CurDir {
        let r1 = rel.drop_first();
        assert forall|i: int| 0 <= i < j.len() implies match #[trigger] j[i] {
            Comp::RootDir => i == 0,
            Comp::CurDir => i == 0,
            Comp::ParentDir => true,
            Comp::Normal(n) => valid_name(n),
        } by {
            if i < base.len() {
                assert(j[i] == base[i]);
            } else {
                assert(j[i] == rel[i - base.len() + 1]);
            }
        }
    } else {
        assert forall|i: int| 0 <= i < j.len() implies match #[trigger] j[i] {
            Comp::RootDir => i == 0,
            Comp::CurDir => i == 0,
            Comp::ParentDir => true,
            Comp::Normal(n) => valid_name(n),
        } by {
            if i < base.len() {
                assert(j[i] == base[i]);
            } else {
                assert(j[i] == rel[i - base.len()]);
                if base.len() > 0 && i == base.len() {
                    assert(rel[0] != Comp::RootDir);
                    assert(rel[0] != Comp::CurDir);
                }
            }
        }
    }
}

/// `join_comps` is what `PathBuf::push` does: pushing the text of `rel` onto
/// the text of `base` gives a path whose components are `join_comps(base, rel)`.
pub proof fn lemma_push_text_components(base: Seq<Comp>, rel: Seq<Comp>)
    requires
        wf_comps(base),
        wf_comps(rel),
    ensures
        parse_path(push_text(render(base), render(rel))) == join_comps(base, rel),
{
    let r = render(base);
    let t = render(rel);
    lemma_parse_render(base);
    lemma_parse_render(rel);
    if rel.len() == 0 {
        assert(t == Seq::<char>::empty());
        lemma_parts_comps_single(Seq::<char>::empty());
        assert(split_parts(Seq::<char>::empty()) == seq![Seq::<char>::empty()]);
        assert(part_comps(Seq::<char>::empty()) =~= Seq::<Comp>::empty());
        if r.len() > 0 {
            lemma_parse_concat(r, t);
            assert(r + t =~= r);
            assert(base + Seq::<Comp>::empty() =~= base);
        }
        assert(base + rel =~= base);
    } else {
        lemma_render_shape(rel);
        assert(t[0] == comp_text(rel[0])[0]);
        if rel[0] == Comp::RootDir {
            assert(t[0] == '/');
        } else {
            assert(t[0] != '/') by {
                if let Comp::Normal(n) = rel[0] {
                    assert(valid_name(n));
                    if n[0] == '/' {
                        assert(n.contains('/'));
                    }
                }
            }
            if base.len() == 0 {
                assert(r == Seq::<char>::empty());
                assert(r + t =~= t);
                assert(base + rel =~= rel);
            } else {
                lemma_render_shape(base);
                lemma_parse_wf(t);
                let h = head_comps(t);
                let body = parts_comps(split_parts(t));
                assert(rel == h + body);
                assert(h.len() == 0 || h == seq![Comp::CurDir]);
                assert(body_comps(body)) by {
                    assert(rel.skip(h.len() as int) =~= body);
                }
                if h.len() == 0 {
                    assert(body == rel);
                    if rel[0] == Comp::CurDir {
                        assert(body[0] == Comp::CurDir);
                    }
                } else {
                    assert(rel[0] == Comp::CurDir);
                    assert(rel.drop_first() =~= body);
                }
                lemma_parse_concat(r, t);
            }
        }
    }
}

/// The components of `base` pushed with `rel`.
pub fn join_components(base: &Vec<Component>, rel: &Vec<Component>) -> (r: Vec<Component>)
    ensures
        view_comps(r@) == join_comps(view_comps(base@), view_comps(rel@)),
        wf_comps(view_comps(base@)) && wf_comps(view_comps(rel@)) ==> wf_comps(view_comps(r@)),
{
    let ghost b = view_comps(base@);
    let ghost rv = view_comps(rel@);
    proof {
        if wf_comps(b) && wf_comps(rv) {
            lemma_join_wf(b, rv);
        }
    }
    let n = rel.len();
    if n > 0 {
        assert(rv[0] == rel@[0]@);
    }
    let rel_root = n > 0 && match &rel[0] {
        Component::RootDir => true,
        _ => false,
    };
    if rel_root {
        return duplicate_components(rel);
    }
    let rel_cur = n > 0 && match &rel[0] {
        Component::CurDir => true,
        _ => false,
    };
    let from: usize = if base.len() > 0 && rel_cur {
        1
    } else {
        0
    };
    let mut out = duplicate_components(base);
    let mut i = from;
    while i < n
        invariant
            from <= i <= n,
            n == rel.len(),
            rv == view_comps(rel@),
            view_comps(out@) == b + rv.subrange(from as int, i as int),
        decreases n - i,
    {
        push_component(&mut out, rel[i].duplicate());
        assert(view_comps(out@) =~= b + rv.subrange(from as int, i + 1));
        i = i + 1;
    }
    assert(rv.subrange(0, n as int) =~= rv);
    assert(n > 0 ==> rv.subrange(1, n as int) =~= rv.drop_first());
    out
}

/// The text of `cs` after `PathBuf::set_extension(ext)`.
pub fn set_extension_components(cs: &Vec<Component>, ext: &str) -> (r: String)
    requires
        wf_comps(view_comps(cs@)),
        !ext@.contains('/'),
    ensures
        r@ == set_extension_text(view_comps(cs@), ext@),
{
    let ghost v = view_comps(cs@);
    let n = cs.len();
    if n == 0 {
        return render_components(cs);
    }
    assert(v.last() == cs@[n - 1]@);
    match &cs[n - 1] {
        Component::Normal(name) => {
            let mut prefix = duplicate_components(cs);
            prefix.pop();
            assert(view_comps(prefix@) =~= v.drop_last());
            proof {
                lemma_wf_prefix(v, n - 1);
                assert(v.drop_last() =~= v.take(n - 1));
            }
            let head = render_components(&prefix);
            let mut new_name = stem_of_name(name.as_str());
            proof {
                reveal_strlit(".");
            }
            if ext.unicode_len() > 0 {
                new_name.append(".");
                new_name.append(ext);
            }
            assert(new_name@ =~= with_extension(name@, ext@));
            push_text_exec(head, new_name)
        },
        _ => render_components(cs),
    }
}

/// `PathBuf::push` on texts.
pub fn push_text_exec(acc: String, t: String) -> (r: String)
    ensures
        r@ == push_text(acc@, t@),
{
    let tc = chars_of(t.as_str());
    let ac = chars_of(acc.as_str());
    if tc.len() > 0 && tc[0] == '/' {
        return t;
    }
    let mut out = acc;
    proof {
        reveal_strlit("/");
    }
    if ac.len() > 0 && ac[ac.len() - 1] != '/' {
        out.append("/");
    }
    out.append(t.as_str());
    assert(ac.len() > 0 ==> ac@[ac.len() - 1] == ac@.last());
    out
}

/// The names among a sequence of components, in order.
pub open spec fn names_of(cs: Seq<Comp>) -> Seq<Seq<char>>
    decreases cs.len(),
{
    if cs.len() == 0 {
        seq![]
    } else {
        names_of(cs.drop_last()) + match cs.last() {
            Comp::Normal(n) => seq![n],
            _ => Seq::<Seq<char>>::empty(),
        }
    }
}

/// The names of a loosely given path: backslashes count as separators, and
/// roots, `.` and `..` are dropped.
pub open spec fn relaxed_names(p: Seq<char>) -> Seq<Seq<char>> {
    names_of(parse_path(unify_separators(p)))
}

/// Name components, one per name.
pub open spec fn name_comps(names: Seq<Seq<char>>) -> Seq<Comp> {
    names.map_values(|n: Seq<char>| Comp::Normal(n))
}

/// The paths tried first for a loosely given path, in order: the project
/// directory joined with all the names, then with the names after dropping
/// one leading name, then two, down to the last name alone.
pub open spec fn relaxed_candidate(projdir: Seq<char>, names: Seq<Seq<char>>, k: int) -> Seq<char> {
    render(join_comps(parse_path(projdir), name_comps(names.skip(k))))
}

/// How many trailing components of `cs` are the trailing names, counted from the end.
pub open spec fn trailing_matches(cs: Seq<Comp>, names: Seq<Seq<char>>) -> nat
    decreases names.len(),
{
    if cs.len() == 0 || names.len() == 0 {
        0
    } else if cs.last() == Comp::Normal(names.last()) {
        1 + trailing_matches(cs.drop_last(), names.drop_last())
    } else {
        0
    }
}

/// The trailing match count is the length of the longest common tail: the
/// last `k` components are the last `k` names, in order, and where both go
/// on, the next ones from the end differ.
pub proof fn lemma_trailing_matches_is_common_tail(cs: Seq<Comp>, names: Seq<Seq<char>>)
    ensures
        ({
            let k = trailing_matches(cs, names) as int;
            &&& k <= cs.len()
            &&& k <= names.len()
            &&& forall|j: int|
                0 <= j < k ==> #[trigger] cs[cs.len() - 1 - j] == Comp::Normal(
                    names[names.len() - 1 - j],
                )
            &&& (k < cs.len() && k < names.len()) ==> cs[cs.len() - 1 - k] != Comp::Normal(
                names[names.len() - 1 - k],
            )
        }),
    decreases names.len(),
{
    if cs.len() > 0 && names.len() > 0 && cs.last() == Comp::Normal(names.last()) {
        let c0 = cs.drop_last();
        let n0 = names.drop_last();
        lemma_trailing_matches_is_common_tail(c0, n0);
        let k = trailing_matches(cs, names) as int;
        assert forall|j: int| 0 <= j < k implies #[trigger] cs[cs.len() - 1 - j] == Comp::Normal(
            names[names.len() - 1 - j],
        ) by {
            if j > 0 {
                assert(cs[cs.len() - 1 - j] == c0[c0.len() - 1 - (j - 1)]);
                assert(names[names.len() - 1 - j] == n0[n0.len() - 1 - (j - 1)]);
            }
        }
        if k < cs.len() && k < names.len() {
            assert(cs[cs.len() - 1 - k] == c0[c0.len() - 1 - (k - 1)]);
            assert(names[names.len() - 1 - k] == n0[n0.len() - 1 - (k - 1)]);
        }
    }
}

/// The score of a file found in the project is the length of the longest
/// common tail of its components and the loose path's names.
pub proof fn lemma_relaxed_score_is_common_tail(file: Seq<char>, names: Seq<Seq<char>>)
    ensures
        ({
            let cs = parse_path(file);
            let k = relaxed_score(file, names) as int;
            &&& k <= cs.len()
            &&& k <= names.len()
            &&& forall|j: int|
                0 <= j < k ==> #[trigger] cs[cs.len() - 1 - j] == Comp::Normal(
                    names[names.len() - 1 - j],
                )
            &&& (k < cs.len() && k < names.len()) ==> cs[cs.len() - 1 - k] != Comp::Normal(
                names[names.len() - 1 - k],
            )
        }),
{
    lemma_trailing_matches_is_common_tail(parse_path(file), names);
}

/// Whether a file found in the project has the file name of the loose path.
pub open spec fn relaxed_name_match(file: Seq<char>, names: Seq<Seq<char>>) -> bool {
    names.len() > 0 && file_name(parse_path(file)) == Some(names.last())
}

/// How well a file found in the project matches the loose path.
pub open spec fn relaxed_score(file: Seq<char>, names: Seq<Seq<char>>) -> nat {
    trailing_matches(parse_path(file), names)
}

/// A file found in the project has the loose path's file name exactly when
/// its last component matches the last name, that is, when it scores at
/// least one.
pub proof fn lemma_name_match_iff_scored(file: Seq<char>, names: Seq<Seq<char>>)
    ensures
        relaxed_name_match(file, names) <==> relaxed_score(file, names) >= 1,
{
    lemma_trailing_matches_is_common_tail(parse_path(file), names);
    let cs = parse_path(file);
    if cs.len() > 0 && names.len() > 0 {
        assert(cs[cs.len() - 1 - 0] == cs.last());
        assert(names[names.len() - 1 - 0] == names.last());
    }
}

proof fn lemma_names_valid(cs: Seq<Comp>)
    requires
        wf_comps(cs),
    ensures
        forall|i: int| 0 <= i < names_of(cs).len() ==> valid_name(#[trigger] names_of(cs)[i]),
    decreases cs.len(),
{
    if cs.len() > 0 {
        lemma_wf_prefix(cs, cs.len() - 1);
        assert(cs.drop_last() =~= cs.take(cs.len() - 1));
        lemma_names_valid(cs.drop_last());
        let a = names_of(cs.drop_last());
        assert(cs[cs.len() - 1] == cs.last());
        assert forall|i: int| 0 <= i < names_of(cs).len() implies valid_name(#[trigger] names_of(cs)[i]) by {
            if i < a.len() {
                assert(names_of(cs)[i] == a[i]);
            }
        }
    }
}

/// The names of a loosely given path.
pub fn clean_relaxed_path(llm_path: &str) -> (r: Vec<String>)
    ensures
        strs_view(r@) == relaxed_names(llm_path@),
        forall|i: int| 0 <= i < r.len() ==> valid_name(#[trigger] r@[i]@),
{
    let cs = crate::components::components_with(llm_path, true);
    let ghost cv = view_comps(cs@);
    proof {
        lemma_parse_wf(unify_separators(llm_path@));
        lemma_names_valid(cv);
    }
    let mut out: Vec<String> = Vec::new();
    let mut i: usize = 0;
    assert(cv.take(0) =~= Seq::<Comp>::empty());
    while i < cs.len()
        invariant
            i <= cs.len(),
            cv == view_comps(cs@),
            strs_view(out@) == names_of(cv.take(i as int)),
        decreases cs.len() - i,
    {
        assert(cv.take(i + 1).drop_last() =~= cv.take(i as int));
        assert(cv.take(i + 1).last() == cs@[i as int]@);
        match &cs[i] {
            Component::Normal(n) => {
                let ghost before = strs_view(out@);
                out.push(n.clone());
                assert(strs_view(out@) =~= before.push(n@));
            },
            _ => {
                assert(names_of(cv.take(i + 1)) =~= names_of(cv.take(i as int)));
            },
        }
        i = i + 1;
    }
    assert(cv.take(cs.len() as int) =~= cv);
    proof {
        assert forall|i: int| 0 <= i < out.len() implies valid_name(#[trigger] out@[i]@) by {
            assert(out@[i]@ == names_of(cv)[i]);
        }
    }
    out
}

/// The paths tried first for the loose path `llm_path` below `projdir`, in
/// order; none where the loose path has no names.
pub fn relaxed_candidates(projdir: &str, llm_path: &str) -> (r: Vec<String>)
    ensures
        r.len() == relaxed_names(llm_path@).len(),
        forall|k: int|
            0 <= k < r.len() ==> #[trigger] r@[k]@ == relaxed_candidate(
                projdir@,
                relaxed_names(llm_path@),
                k,
            ),
{
    let names = clean_relaxed_path(llm_path);
    let ghost nv = strs_view(names@);
    let base = components(projdir);
    proof {
        lemma_parse_wf(projdir@);
    }
    let n = names.len();
    let mut out: Vec<String> = Vec::new();
    let mut k: usize = 0;
    while k < n
        invariant
            k <= n,
            n == names.len(),
            nv == strs_view(names@),
            nv == relaxed_names(llm_path@),
            forall|i: int| 0 <= i < names.len() ==> valid_name(#[trigger] names@[i]@),
            view_comps(base@) == parse_path(projdir@),
            wf_comps(view_comps(base@)),
            out.len() == k,
            forall|i: int| 0 <= i < k ==> #[trigger] out@[i]@ == relaxed_candidate(projdir@, nv, i),
        decreases n - k,
    {
        let mut rel: Vec<Component> = Vec::new();
        let mut j = k;
        assert(name_comps(nv.subrange(k as int, k as int)) =~= Seq::<Comp>::empty());
        while j < n
            invariant
                k <= j <= n,
                n == names.len(),
                nv == strs_view(names@),
                view_comps(rel@) == name_comps(nv.subrange(k as int, j as int)),
            decreases n - j,
        {
            push_component(&mut rel, Component::Normal(names[j].clone()));
            assert(name_comps(nv.subrange(k as int, j + 1)) =~= name_comps(nv.subrange(k as int, j as int)).push(Comp::Normal(nv[j as int])));
            j = j + 1;
        }
        assert(nv.subrange(k as int, n as int) =~= nv.skip(k as int));
        assert(wf_comps(view_comps(rel@))) by {
            let rv = view_comps(rel@);
            assert forall|i: int| 0 <= i < rv.len() implies match #[trigger] rv[i] {
                Comp::RootDir => i == 0,
                Comp::CurDir => i == 0,
                Comp::ParentDir => true,
                Comp::Normal(x) => valid_name(x),
            } by {
                assert(rv[i] == Comp::Normal(nv[k + i]));
                assert(nv[k + i] == names@[k + i]@);
            }
        }
        let joined = join_components(&base, &rel);
        out.push(render_components(&joined));
        k = k + 1;
    }
    out
}

/// The candidate that a loosely given path resolves to among those that are
/// files: the first one, where `is_file[k]` tells whether candidate `k` is a
/// regular file.
pub fn first_file_candidate(is_file: &Vec<bool>) -> (r: Option<usize>)
    ensures
        match r {
            Some(k) => k < is_file.len() && is_file@[k as int] && forall|j: int|
                0 <= j < k ==> !#[trigger] is_file@[j],
            None => forall|j: int| 0 <= j < is_file.len() ==> !#[trigger] is_file@[j],
        },
{
    let mut k: usize = 0;
    while k < is_file.len()
        invariant
            k <= is_file.len(),
            forall|j: int| 0 <= j < k ==> !#[trigger] is_file@[j],
        decreases is_file.len() - k,
    {
        if is_file[k] {
            return Some(k);
        }
        k = k + 1;
    }
    None
}

/// How many trailing components of `cs` are the trailing `names`.
fn trailing_match_count(cs: &Vec<Component>, names: &Vec<String>) -> (r: usize)
    ensures
        r == trailing_matches(view_comps(cs@), strs_view(names@)),
{
    let ghost cv = view_comps(cs@);
    let ghost nv = strs_view(names@);
    let mut count: usize = 0;
    assert(cv.take(cs.len() as int) =~= cv);
    assert(nv.take(names.len() as int) =~= nv);
    while count < cs.len() && count < names.len()
        invariant
            count <= cs.len(),
            count <= names.len(),
            cv == view_comps(cs@),
            nv == strs_view(names@),
            trailing_matches(cv, nv) == count + trailing_matches(
                cv.take(cs.len() - count),
                nv.take(names.len() - count),
            ),
        decreases cs.len() - count,
    {
        let a = cs.len() - count;
        let b = names.len() - count;
        let ghost ct = cv.take(a as int);
        let ghost nt = nv.take(b as int);
        assert(ct.drop_last() =~= cv.take(a - 1));
        assert(nt.drop_last() =~= nv.take(b - 1));
        assert(ct.last() == cs@[a - 1]@);
        assert(nt.last() == names@[b - 1]@);
        let same = match &cs[a - 1] {
            Component::Normal(x) => x.eq(&names[b - 1]),
            _ => false,
        };
        if !same {
            return count;
        }
        count = count + 1;
    }
    assert(cv.take(cs.len() - count).len() == 0 || nv.take(names.len() - count).len() == 0);
    count
}

/// The file, among those found in the project in order, that matches the
/// loose path best: of the files with its file name, the first one with the
/// most trailing components in common with it; none where no file has its
/// file name.
pub fn best_relaxed_match(llm_path: &str, files: &Vec<String>) -> (r: Option<String>)
    ensures
        match r {
            Some(f) => exists|i: int|
                0 <= i < files.len() && f@ == files@[i]@ && #[trigger] relaxed_name_match(
                    files@[i]@,
                    relaxed_names(llm_path@),
                ) && (forall|j: int|
                    0 <= j < files.len() && relaxed_name_match(
                        #[trigger] files@[j]@,
                        relaxed_names(llm_path@),
                    ) ==> relaxed_score(files@[j]@, relaxed_names(llm_path@)) <= relaxed_score(
                        files@[i]@,
                        relaxed_names(llm_path@),
                    )) && (forall|j: int|
                    0 <= j < i && relaxed_name_match(
                        #[trigger] files@[j]@,
                        relaxed_names(llm_path@),
                    ) ==> relaxed_score(files@[j]@, relaxed_names(llm_path@)) < relaxed_score(
                        files@[i]@,
                        relaxed_names(llm_path@),
                    )),
            None => forall|j: int|
                0 <= j < files.len() ==> !relaxed_name_match(
                    #[trigger] files@[j]@,
                    relaxed_names(llm_path@),
                ),
        },
{
    let names = clean_relaxed_path(llm_path);
    let ghost nv = strs_view(names@);
    if names.len() == 0 {
        return None;
    }
    assert(nv.last() == names@[names.len() - 1]@);
    let mut best: Option<usize> = None;
    let mut highest: usize = 0;
    let mut i: usize = 0;
    while i < files.len()
        invariant
            i <= files.len(),
            names.len() > 0,
            nv == strs_view(names@),
            nv == relaxed_names(llm_path@),
            nv.last() == names@[names.len() - 1]@,
            match best {
                Some(b) => {
                    &&& b < i
                    &&& relaxed_name_match(files@[b as int]@, nv)
                    &&& highest == relaxed_score(files@[b as int]@, nv)
                    &&& forall|j: int|
                        0 <= j < i && relaxed_name_match(#[trigger] files@[j]@, nv) ==> relaxed_score(
                            files@[j]@,
                            nv,
                        ) <= highest
                    &&& forall|j: int|
                        0 <= j < b && relaxed_name_match(#[trigger] files@[j]@, nv) ==> relaxed_score(
                            files@[j]@,
                            nv,
                        ) < highest
                },
                None => highest == 0 && forall|j: int|
                    0 <= j < i ==> !relaxed_name_match(#[trigger] files@[j]@, nv),
            },
        decreases files.len() - i,
    {
        let cs = components(files[i].as_str());
        let ghost cv = view_comps(cs@);
        let n = cs.len();
        let name_ok = n > 0 && match &cs[n - 1] {
            Component::Normal(x) => x.eq(&names[names.len() - 1]),
            _ => false,
        };
        if n > 0 {
            assert(cv.last() == cs@[n - 1]@);
        }
        assert(name_ok == relaxed_name_match(files@[i as int]@, nv));
        if name_ok {
            let score = trailing_match_count(&cs, &names);
            assert(score >= 1) by {
                assert(cv.last() == Comp::Normal(nv.last()));
            }
            if score > highest {
                best = Some(i);
                highest = score;
            }
        }
        i = i + 1;
    }
    match best {
        Some(b) => Some(files[b].clone()),
        None => None,
    }
}

/// The names whose presence marks the root of a version-controlled project.
pub open spec fn vcs_markers() -> Seq<Seq<char>> {
    seq![
        ".git"@,
        ".svn"@,
        ".hg"@,
        ".cvs"@,
        ".bzr"@,
        "_darcs"@,
        "_MTN"@,
        "BitKeeper"@,
        "BK"@,
        ".fslckout"@,
        "_FOSSIL_"@,
        ".fossil-settings"@,
    ]
}

/// The parent of a path: without its last component, unless that is the root
/// or there is none.
pub open spec fn parent_comps(cs: Seq<Comp>) -> Option<Seq<Comp>> {
    if cs.len() > 0 && cs.last() != Comp::RootDir {
        Some(cs.drop_last())
    } else {
        None
    }
}

/// One step of the search for a project root, upward from a directory.
pub enum ProjectSearch {
    /// The directory holds a version-control marker: it is the root.
    Found(String),
    /// Go on with the parent directory.
    Parent(String),
    /// There is no parent: the directory reached is the answer.
    Top(String),
}

/// The paths whose existence marks `dir` as a project root, one per marker.
pub fn vcs_marker_paths(dir: &str) -> (r: Vec<String>)
    ensures
        r.len() == vcs_markers().len(),
        forall|i: int|
            0 <= i < r.len() ==> #[trigger] r@[i]@ == render(
                parse_path(dir@).push(Comp::Normal(vcs_markers()[i])),
            ),
{
    let base = components(dir);
    proof {
        lemma_parse_wf(dir@);
        reveal_strlit(".git");
        reveal_strlit(".svn");
        reveal_strlit(".hg");
        reveal_strlit(".cvs");
        reveal_strlit(".bzr");
        reveal_strlit("_darcs");
        reveal_strlit("_MTN");
        reveal_strlit("BitKeeper");
        reveal_strlit("BK");
        reveal_strlit(".fslckout");
        reveal_strlit("_FOSSIL_");
        reveal_strlit(".fossil-settings");
    }
    let markers: [&str; 12] = [
        ".git",
        ".svn",
        ".hg",
        ".cvs",
        ".bzr",
        "_darcs",
        "_MTN",
        "BitKeeper",
        "BK",
        ".fslckout",
        "_FOSSIL_",
        ".fossil-settings",
    ];
    assert(markers@.map_values(|m: &str| m@) =~= vcs_markers());
    assert forall|i: int| 0 <= i < 12 implies valid_name(#[trigger] vcs_markers()[i]) by {
        let m = vcs_markers()[i];
        assert(m.len() > 0);
        assert(!m.contains('/')) by {
            if m.contains('/') {
                let k = choose|k: int| 0 <= k < m.len() && m[k] == '/';
            }
        }
        assert(m != seq!['.']) by {
            if m == seq!['.'] {
                assert(m.len() == 1);
            }
        }
        assert(m != seq!['.', '.']) by {
            if m == seq!['.', '.'] {
                assert(m.len() == 2);
                assert(m[1] == '.');
            }
        }
    }
    let mut out: Vec<String> = Vec::new();
    let mut i: usize = 0;
    while i < 12
        invariant
            i <= 12,
            out.len() == i,
            markers@.map_values(|m: &str| m@) == vcs_markers(),
            view_comps(base@) == parse_path(dir@),
            wf_comps(view_comps(base@)),
            forall|k: int| 0 <= k < 12 ==> valid_name(#[trigger] vcs_markers()[k]),
            forall|k: int|
                0 <= k < i ==> #[trigger] out@[k]@ == render(
                    parse_path(dir@).push(Comp::Normal(vcs_markers()[k])),
                ),
        decreases 12 - i,
    {
        let mut cs = duplicate_components(&base);
        assert(markers@[i as int]@ == vcs_markers()[i as int]);
        push_component(&mut cs, Component::Normal(markers[i].to_owned()));
        assert(wf_comps(view_comps(cs@))) by {
            let v = view_comps(cs@);
            assert forall|k: int| 0 <= k < v.len() implies match #[trigger] v[k] {
                Comp::RootDir => k == 0,
                Comp::CurDir => k == 0,
                Comp::ParentDir => true,
                Comp::Normal(x) => valid_name(x),
            } by {
                if k < v.len() - 1 {
                    assert(v[k] == view_comps(base@)[k]);
                }
            }
        }
        out.push(render_components(&cs));
        i = i + 1;
    }
    out
}

/// One step of the search for a project root: a directory with a marker is
/// the root; otherwise the search goes on with the parent, or ends at a
/// directory without one.
pub fn project_search_step(dir: &str, marker_found: bool) -> (r: ProjectSearch)
    ensures
        marker_found ==> r is Found && r->Found_0@ == dir@,
        !marker_found ==> match parent_comps(parse_path(dir@)) {
            Some(p) => {
                &&& r is Parent
                &&& r->Parent_0@ == render(p)
                &&& parse_path(r->Parent_0@) == p
                &&& parse_path(r->Parent_0@).len() < parse_path(dir@).len()
            },
            None => r is Top && r->Top_0@ == dir@,
        },
{
    if marker_found {
        return ProjectSearch::Found(dir.to_owned());
    }
    let mut cs = components(dir);
    let ghost cv = view_comps(cs@);
    proof {
        lemma_parse_wf(dir@);
    }
    let n = cs.len();
    if n == 0 {
        return ProjectSearch::Top(dir.to_owned());
    }
    assert(cv.last() == cs@[n - 1]@);
    let at_root = match &cs[n - 1] {
        Component::RootDir => true,
        _ => false,
    };
    if at_root {
        return ProjectSearch::Top(dir.to_owned());
    }
    cs.pop();
    assert(view_comps(cs@) =~= cv.drop_last());
    proof {
        lemma_wf_prefix(cv, n - 1);
        assert(cv.drop_last() =~= cv.take(n - 1));
        lemma_parse_render(cv.drop_last());
    }
    ProjectSearch::Parent(render_components(&cs))
}

proof fn lemma_fold_absolute(cs: Seq<Comp>)
    requires
        wf_comps(cs),
        cs.len() > 0,
    ensures
        is_absolute_comps(normalize_fold(seq![], cs)) == is_absolute_comps(cs),
    decreases cs.len(),
{
    let c = cs.last();
    let cs0 = cs.drop_last();
    assert(cs[cs.len() - 1] == c);
    if cs.len() == 1 {
        assert(cs0 =~= Seq::<Comp>::empty());
        assert(cs[0] == c);
    } else {
        lemma_wf_prefix(cs, cs.len() - 1);
        assert(cs0 =~= cs.take(cs.len() - 1));
        lemma_fold_absolute(cs0);
        assert(cs0[0] == cs[0]);
        let out = normalize_fold(seq![], cs0);
        assert(c != Comp::RootDir);
        if is_absolute_comps(out) && out.len() == 1 {
            assert(out.last() == out[0]);
        }
        let r = normalize_step(out, c);
        if out.len() > 0 && r.len() > 0 {
            if !(c == Comp::ParentDir && out.last() is Normal) {
                assert(r[0] == out[0]);
            } else {
                assert(r[0] == out[0]);
            }
        }
    }
}

/// Without a home directory, normalization keeps relative paths relative and
/// absolute paths absolute, and an absolute path never keeps a `..`: it
/// cannot climb above the root.
pub proof fn lemma_normalize_keeps_anchor(p: Seq<char>)
    ensures
        is_absolute_comps(normalize_comps(parse_path(p), None)) == is_absolute_comps(
            parse_path(p),
        ),
        is_absolute_comps(parse_path(p)) ==> forall|i: int|
            0 <= i < normalize_comps(parse_path(p), None).len() ==> #[trigger] normalize_comps(
                parse_path(p),
                None,
            )[i] != Comp::ParentDir,
{
    let cs = parse_path(p);
    lemma_parse_wf(p);
    lemma_fold_normal_form(cs);
    if cs.len() > 0 {
        lemma_fold_absolute(cs);
    }
}

/// The components of the output path that `PathBuf::set_extension` leaves:
/// the directories stay, the file name gets the new extension.
pub proof fn lemma_set_extension_components(cs: Seq<Comp>, ext: Seq<char>)
    requires
        wf_comps(cs),
        ext.len() > 0,
        !ext.contains('/'),
    ensures
        parse_path(set_extension_text(cs, ext)) == match file_name(cs) {
            Some(n) => cs.drop_last().push(Comp::Normal(with_extension(n, ext))),
            None => cs,
        },
{
    match file_name(cs) {
        Some(n) => {
            let l = cs.len() - 1;
            assert(cs[l] == cs.last());
            assert(valid_name(n));
            let m = with_extension(n, ext);
            lemma_last_dot_bounds(n);
            let st = name_stem(n);
            assert(st.len() > 0);
            assert(!st.contains('/')) by {
                if st.contains('/') {
                    let k = choose|k: int| 0 <= k < st.len() && st[k] == '/';
                    assert(n[k] == '/');
                    assert(n.contains('/'));
                }
            }
            assert(!m.contains('/')) by {
                if m.contains('/') {
                    let k = choose|k: int| 0 <= k < m.len() && m[k] == '/';
                    if k < st.len() {
                        assert(m[k] == st[k]);
                        assert(st.contains('/'));
                    } else if k > st.len() {
                        assert(m[k] == ext[k - st.len() - 1]);
                        assert(ext.contains('/'));
                    }
                }
            }
            assert(m.len() >= 3);
            assert(m != seq!['.']);
            assert(m != seq!['.', '.']) by {
                if m == seq!['.', '.'] {
                    assert(m.len() == 2);
                }
            }
            let cs2 = cs.drop_last().push(Comp::Normal(m));
            assert(wf_comps(cs2)) by {
                assert forall|i: int| 0 <= i < cs2.len() implies match #[trigger] cs2[i] {
                    Comp::RootDir => i == 0,
                    Comp::CurDir => i == 0,
                    Comp::ParentDir => true,
                    Comp::Normal(x) => valid_name(x),
                } by {
                    if i < l {
                        assert(cs2[i] == cs[i]);
                    }
                }
            }
            assert(cs2.drop_last() =~= cs.drop_last());
            lemma_parse_render(cs2);
        },
        None => {
            lemma_parse_render(cs);
        },
    }
}

} // verus!
