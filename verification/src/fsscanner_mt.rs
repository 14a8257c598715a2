//! The decisions behind mirroring an input tree into an output tree: where the
//! output of each input file goes, and how the errors of a batch are reported.
use vstd::prelude::*;
use crate::components::{
    components, has_prefix, lemma_parse_wf, parse_path, render, render_components, wf_comps, Comp,
};
use crate::pathutils::{
    file_name, join_comps, join_components, lemma_set_extension_components, set_extension_components,
    with_extension, set_extension_text, strip_prefix_comps,
    strip_prefix_components,
};

verus! {

/// The message of a path that does not lie below the input root.
pub open spec fn prefix_not_found() -> Seq<char> {
    "prefix not found"@
}

/// The output path text of `input` below `output_root`: the path of `input`
/// relative to `input_root`, below `output_root`, with extension `suffix`.
pub open spec fn mapped_output(
    input_root: Seq<char>,
    output_root: Seq<char>,
    input: Seq<char>,
    suffix: Seq<char>,
) -> Option<Seq<char>> {
    match strip_prefix_comps(parse_path(input), parse_path(input_root)) {
        Some(rel) => Some(set_extension_text(join_comps(parse_path(output_root), rel), suffix)),
        None => None,
    }
}

/// Where the output of `input_path` goes: its path relative to `input_root`,
/// placed below `output_root`, with its extension replaced by `suffix`; the
/// error where `input_path` does not lie below `input_root`.
pub fn map_output_path(input_root: &str, output_root: &str, input_path: &str, suffix: &str) -> (r:
    Result<String, String>)
    requires
        !suffix@.contains('/'),
    ensures
        match r {
            Ok(out) => mapped_output(input_root@, output_root@, input_path@, suffix@) == Some(out@),
            Err(e) => mapped_output(input_root@, output_root@, input_path@, suffix@) is None && e@
                == prefix_not_found(),
        },
{
    let input = components(input_path);
    let root = components(input_root);
    proof {
        lemma_parse_wf(input_path@);
        lemma_parse_wf(output_root@);
    }
    match strip_prefix_components(&input, &root) {
        None => Err(String::from_str("prefix not found")),
        Some(rel) => {
            proof {
                let k = parse_path(input_root@).len() as int;
                crate::pathutils::lemma_wf_skip(parse_path(input_path@), k);
            }
            let out = join_components(&components(output_root), &rel);
            Ok(set_extension_components(&out, suffix))
        },
    }
}

/// Where the outputs of `input_path` go, one per suffix: the path of
/// `input_path` relative to `input_root`, placed below `output_root` (returned
/// first, as it is), then that path with its extension replaced by each
/// suffix in turn; the error where `input_path` does not lie below `input_root`.
pub fn map_output_paths(
    input_root: &str,
    output_root: &str,
    input_path: &str,
    suffixes: &[&str],
) -> (r: Result<(String, Vec<String>), String>)
    requires
        forall|i: int| 0 <= i < suffixes@.len() ==> !(#[trigger] suffixes@[i])@.contains('/'),
    ensures
        match r {
            Ok((first, outs)) => {
                &&& strip_prefix_comps(parse_path(input_path@), parse_path(input_root@)) matches Some(
                    rel,
                )
                &&& first@ == render(join_comps(parse_path(output_root@), rel))
                &&& outs.len() == suffixes@.len()
                &&& forall|i: int|
                    0 <= i < outs.len() ==> #[trigger] outs@[i]@ == set_extension_text(
                        join_comps(parse_path(output_root@), rel),
                        suffixes@[i]@,
                    )
            },
            Err(e) => strip_prefix_comps(parse_path(input_path@), parse_path(input_root@)) is None
                && e@ == prefix_not_found(),
        },
{
    let input = components(input_path);
    let root = components(input_root);
    proof {
        lemma_parse_wf(input_path@);
        lemma_parse_wf(output_root@);
    }
    match strip_prefix_components(&input, &root) {
        None => Err(String::from_str("prefix not found")),
        Some(rel) => {
            proof {
                let k = parse_path(input_root@).len() as int;
                crate::pathutils::lemma_wf_skip(parse_path(input_path@), k);
            }
            let out = join_components(&components(output_root), &rel);
            let first = render_components(&out);
            let mut outs: Vec<String> = Vec::new();
            let mut i: usize = 0;
            while i < suffixes.len()
                invariant
                    i <= suffixes.len(),
                    outs.len() == i,
                    wf_comps(crate::components::view_comps(out@)),
                    forall|j: int| 0 <= j < suffixes@.len() ==> !(#[trigger] suffixes@[j])@.contains('/'),
                    forall|j: int|
                        0 <= j < i ==> #[trigger] outs@[j]@ == set_extension_text(
                            crate::components::view_comps(out@),
                            suffixes@[j]@,
                        ),
                decreases suffixes.len() - i,
            {
                outs.push(set_extension_components(&out, suffixes[i]));
                i = i + 1;
            }
            Ok((first, outs))
        },
    }
}

/// The output of a file keeps the file's directories relative to the input
/// root, placed below the output root, and changes nothing but the extension
/// of the file name.
pub proof fn lemma_mapped_output_structure(
    input_root: Seq<char>,
    output_root: Seq<char>,
    input: Seq<char>,
    suffix: Seq<char>,
)
    requires
        suffix.len() > 0,
        !suffix.contains('/'),
        mapped_output(input_root, output_root, input, suffix) is Some,
    ensures
        ({
            let rel = strip_prefix_comps(parse_path(input), parse_path(input_root))->0;
            let joined = join_comps(parse_path(output_root), rel);
            &&& has_prefix(parse_path(input), parse_path(input_root))
            &&& parse_path(mapped_output(input_root, output_root, input, suffix)->0) == match file_name(
                joined,
            ) {
                Some(n) => joined.drop_last().push(Comp::Normal(with_extension(n, suffix))),
                None => joined,
            }
        }),
{
    let cs = parse_path(input);
    let k = parse_path(input_root).len() as int;
    lemma_parse_wf(input);
    lemma_parse_wf(output_root);
    crate::pathutils::lemma_wf_skip(cs, k);
    let rel = cs.skip(k);
    crate::pathutils::lemma_join_wf(parse_path(output_root), rel);
    lemma_set_extension_components(join_comps(parse_path(output_root), rel), suffix);
}

/// The error that one input file of a mapped batch records: the mapping
/// error where the file lies outside the input root (its callback is then not
/// run), else the callback's error, else none. Creating the output directory
/// is attempted before the callback; its failure neither keeps the callback
/// from running nor counts as an error of the file.
pub fn job_error(input_path: &str, mapping_error: Option<&str>, callback_error: Option<&str>) -> (r:
    Option<String>)
    ensures
        match mapping_error {
            Some(m) => r is Some && r->0@ == path_error_line(input_path@, m@),
            None => match callback_error {
                Some(c) => r is Some && r->0@ == path_error_line(input_path@, c@),
                None => r is None,
            },
        },
{
    match mapping_error {
        Some(m) => Some(format_path_error(input_path, m)),
        None => match callback_error {
            Some(c) => Some(format_path_error(input_path, c)),
            None => None,
        },
    }
}

/// The decimal digits of a number.
pub open spec fn decimal(n: nat) -> Seq<char>
    decreases n,
{
    if n < 10 {
        seq![digit_char(n)]
    } else {
        decimal(n / 10) + seq![digit_char(n % 10)]
    }
}

pub open spec fn digit_char(d: nat) -> char {
    if d == 0 {
        '0'
    } else if d == 1 {
        '1'
    } else if d == 2 {
        '2'
    } else if d == 3 {
        '3'
    } else if d == 4 {
        '4'
    } else if d == 5 {
        '5'
    } else if d == 6 {
        '6'
    } else if d == 7 {
        '7'
    } else if d == 8 {
        '8'
    } else {
        '9'
    }
}

fn digit_str(d: usize) -> (r: &'static str)
    requires
        d < 10,
    ensures
        r@ == seq![digit_char(d as nat)],
{
    proof {
        reveal_strlit("0");
        reveal_strlit("1");
        reveal_strlit("2");
        reveal_strlit("3");
        reveal_strlit("4");
        reveal_strlit("5");
        reveal_strlit("6");
        reveal_strlit("7");
        reveal_strlit("8");
        reveal_strlit("9");
    }
    let r = if d == 0 {
        "0"
    } else if d == 1 {
        "1"
    } else if d == 2 {
        "2"
    } else if d == 3 {
        "3"
    } else if d == 4 {
        "4"
    } else if d == 5 {
        "5"
    } else if d == 6 {
        "6"
    } else if d == 7 {
        "7"
    } else if d == 8 {
        "8"
    } else {
        "9"
    };
    assert(r@ =~= seq![digit_char(d as nat)]);
    r
}

/// The decimal text of a number.
pub fn decimal_string(n: usize) -> (r: String)
    ensures
        r@ == decimal(n as nat),
    decreases n,
{
    if n < 10 {
        String::from_str(digit_str(n))
    } else {
        let mut s = decimal_string(n / 10);
        s.append(digit_str(n % 10));
        s
    }
}

/// The line that reports an error about a path: `path: error`.
pub open spec fn path_error_line(path: Seq<char>, error: Seq<char>) -> Seq<char> {
    path + ": "@ + error
}

/// The line that reports an error about a path: `path: error`.
pub fn format_path_error(path: &str, error: &str) -> (r: String)
    ensures
        r@ == path_error_line(path@, error@),
{
    let mut s = String::from_str(path);
    s.append(": ");
    s.append(error);
    s
}

/// The report of the errors of a batch: the count `n`, then one `- error`
/// line for each of `errors`.
pub open spec fn errors_report_lines(n: nat, errors: Seq<Seq<char>>) -> Seq<char>
    decreases errors.len(),
{
    if errors.len() == 0 {
        decimal(n) + " parallel processing error(s)"@
    } else {
        errors_report_lines(n, errors.drop_last()) + "\n- "@ + errors.last()
    }
}

/// The report of the errors of a batch.
pub fn processing_errors_message(errors: &Vec<String>) -> (r: String)
    ensures
        r@ == errors_report_lines(errors.len() as nat, errors@.map_values(|e: String| e@)),
{
    let ghost ev = errors@.map_values(|e: String| e@);
    let mut s = decimal_string(errors.len());
    s.append(" parallel processing error(s)");
    let mut i: usize = 0;
    assert(ev.take(0) =~= Seq::<Seq<char>>::empty());
    while i < errors.len()
        invariant
            i <= errors.len(),
            ev == errors@.map_values(|e: String| e@),
            s@ == errors_report_lines(errors.len() as nat, ev.take(i as int)),
        decreases errors.len() - i,
    {
        assert(ev.take(i + 1).drop_last() =~= ev.take(i as int));
        assert(ev.take(i + 1).last() == errors@[i as int]@);
        s.append("\n- ");
        s.append(errors[i].as_str());
        i = i + 1;
    }
    assert(ev.take(errors.len() as int) =~= ev);
    s
}

/// The outcome of a batch: success where no error was recorded, else the
/// report of all errors.
pub fn finish_errors(errors: &Vec<String>) -> (r: Result<(), String>)
    ensures
        match r {
            Ok(()) => errors.len() == 0,
            Err(m) => errors.len() > 0 && m@ == errors_report_lines(
                errors.len() as nat,
                errors@.map_values(|e: String| e@),
            ),
        },
{
    if errors.len() == 0 {
        Ok(())
    } else {
        Err(processing_errors_message(errors))
    }
}

} // verus!
