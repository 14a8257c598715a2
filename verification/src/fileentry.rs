//! Files paired with their text content, and the decisions behind reading a
//! list of them: which paths are read, how the list is split into batches, and
//! how the outcomes become entries or one error.
use vstd::prelude::*;
use crate::fsscanner_mt::{format_path_error, path_error_line};
use crate::pathfilter::{spec_contains, FilterView, Pathfilter};
use crate::pathutils::strs_view;

verus! {

/// A file system entry: its path and its UTF-8 text content.
#[derive(Debug, Clone)]
pub struct FileEntry {
    pub path: String,
    pub data: String,
}

/// The text that shows an entry: a path header, a content header, then the content.
pub open spec fn entry_display(path: Seq<char>, data: Seq<char>) -> Seq<char> {
    "=== Path: "@ + path + " ===\n=== Content: ===\n"@ + data
}

/// The outcome of reading one file: its content, or the message of the error.
#[derive(Debug)]
pub struct ReadOutcome {
    pub path: String,
    pub content: Result<String, String>,
}

/// The model of a read outcome.
pub struct OutcomeView {
    pub path: Seq<char>,
    pub content: Result<Seq<char>, Seq<char>>,
}

impl View for ReadOutcome {
    type V = OutcomeView;

    open spec fn view(&self) -> OutcomeView {
        OutcomeView {
            path: self.path@,
            content: match self.content {
                Ok(d) => Ok(d@),
                Err(e) => Err(e@),
            },
        }
    }
}

/// The error lines of the failed reads, in order.
pub open spec fn failed_reads(outcomes: Seq<OutcomeView>) -> Seq<Seq<char>>
    decreases outcomes.len(),
{
    if outcomes.len() == 0 {
        seq![]
    } else {
        let o = outcomes.last();
        failed_reads(outcomes.drop_last()) + match o.content {
            Ok(_) => Seq::<Seq<char>>::empty(),
            Err(e) => seq![path_error_line(o.path, e)],
        }
    }
}

/// The entries of the successful reads, in order, as (path, content) pairs.
pub open spec fn read_entries(outcomes: Seq<OutcomeView>) -> Seq<(Seq<char>, Seq<char>)>
    decreases outcomes.len(),
{
    if outcomes.len() == 0 {
        seq![]
    } else {
        let o = outcomes.last();
        read_entries(outcomes.drop_last()) + match o.content {
            Ok(d) => seq![(o.path, d)],
            Err(_) => Seq::<(Seq<char>, Seq<char>)>::empty(),
        }
    }
}

/// Every outcome is either an entry or a failure line: the numbers add up
/// to the number of outcomes.
pub proof fn lemma_outcomes_split(outcomes: Seq<OutcomeView>)
    ensures
        read_entries(outcomes).len() + failed_reads(outcomes).len() == outcomes.len(),
    decreases outcomes.len(),
{
    if outcomes.len() > 0 {
        lemma_outcomes_split(outcomes.drop_last());
    }
}

/// Where no read failed, there is one entry per outcome, in order, each with
/// the path read and the whole content read, empty content included.
pub proof fn lemma_entries_of_successful_reads(outcomes: Seq<OutcomeView>)
    requires
        forall|i: int| 0 <= i < outcomes.len() ==> (#[trigger] outcomes[i]).content is Ok,
    ensures
        read_entries(outcomes).len() == outcomes.len(),
        forall|i: int|
            0 <= i < outcomes.len() ==> #[trigger] read_entries(outcomes)[i] == (
                outcomes[i].path,
                outcomes[i].content->Ok_0,
            ),
        failed_reads(outcomes).len() == 0,
    decreases outcomes.len(),
{
    if outcomes.len() > 0 {
        let o0 = outcomes.drop_last();
        assert forall|i: int| 0 <= i < o0.len() implies (#[trigger] o0[i]).content is Ok by {
            assert(o0[i] == outcomes[i]);
        }
        lemma_entries_of_successful_reads(o0);
        let l = outcomes.len() - 1;
        assert(outcomes[l] == outcomes.last());
        let o = outcomes.last();
        let d = o.content->Ok_0;
        assert(read_entries(outcomes) == read_entries(o0) + seq![(o.path, d)]);
        assert forall|i: int| 0 <= i < outcomes.len() implies #[trigger] read_entries(outcomes)[i]
            == (outcomes[i].path, outcomes[i].content->Ok_0) by {
            if i < l {
                assert(o0[i] == outcomes[i]);
            }
        }
        assert(failed_reads(outcomes) =~= failed_reads(o0));
    }
}

/// Where every read failed, there is one failure line per outcome, in
/// order, each naming the path and its error, and no entry.
pub proof fn lemma_lines_of_failed_reads(outcomes: Seq<OutcomeView>)
    requires
        forall|i: int| 0 <= i < outcomes.len() ==> (#[trigger] outcomes[i]).content is Err,
    ensures
        failed_reads(outcomes).len() == outcomes.len(),
        forall|i: int|
            0 <= i < outcomes.len() ==> #[trigger] failed_reads(outcomes)[i] == path_error_line(
                outcomes[i].path,
                outcomes[i].content->Err_0,
            ),
        read_entries(outcomes).len() == 0,
    decreases outcomes.len(),
{
    if outcomes.len() > 0 {
        let o0 = outcomes.drop_last();
        assert forall|i: int| 0 <= i < o0.len() implies (#[trigger] o0[i]).content is Err by {
            assert(o0[i] == outcomes[i]);
        }
        lemma_lines_of_failed_reads(o0);
        let l = outcomes.len() - 1;
        assert(outcomes[l] == outcomes.last());
        assert forall|i: int| 0 <= i < outcomes.len() implies #[trigger] failed_reads(outcomes)[i]
            == path_error_line(outcomes[i].path, outcomes[i].content->Err_0) by {
            if i < l {
                assert(o0[i] == outcomes[i]);
            }
        }
        assert(read_entries(outcomes) =~= read_entries(o0));
    }
}

/// Lines joined with newlines.
pub open spec fn join_lines(lines: Seq<Seq<char>>) -> Seq<char>
    decreases lines.len(),
{
    if lines.len() == 0 {
        seq![]
    } else if lines.len() == 1 {
        lines[0]
    } else {
        join_lines(lines.drop_last()) + "\n"@ + lines.last()
    }
}

/// The paths of a list that the filter accepts, in order; all of them
/// without a filter.
pub open spec fn accepted(filter: Option<FilterView>, paths: Seq<Seq<char>>) -> Seq<Seq<char>> {
    match filter {
        Some(f) => paths.filter(|p: Seq<char>| spec_contains(f, p)),
        None => paths,
    }
}

pub open spec fn entries_view(v: Seq<FileEntry>) -> Seq<(Seq<char>, Seq<char>)> {
    v.map_values(|e: FileEntry| (e.path@, e.data@))
}

/// The outcome of reading a list of paths in a file system where reading
/// `p` gives `read(p)`: the entries in order where every read succeeded, else
/// one error that lists the failed reads.
pub open spec fn batch_outcome(
    paths: Seq<Seq<char>>,
    read: spec_fn(Seq<char>) -> Result<Seq<char>, Seq<char>>,
) -> Result<Seq<(Seq<char>, Seq<char>)>, Seq<char>> {
    let outcomes = paths.map_values(|p: Seq<char>| OutcomeView { path: p, content: read(p) });
    if failed_reads(outcomes).len() == 0 {
        Ok(read_entries(outcomes))
    } else {
        Err(join_lines(failed_reads(outcomes)))
    }
}

/// What reading a list of paths gives: the paths that the filter accepts are
/// read, and any failed read fails the whole call.
pub open spec fn path_list_outcome(
    filter: Option<FilterView>,
    list: Seq<Seq<char>>,
    read: spec_fn(Seq<char>) -> Result<Seq<char>, Seq<char>>,
) -> Result<Seq<(Seq<char>, Seq<char>)>, Seq<char>> {
    batch_outcome(accepted(filter, list), read)
}

/// What reading a list of path strings gives: empty strings name no file,
/// the rest are read as a list of paths.
pub open spec fn string_list_outcome(
    filter: Option<FilterView>,
    list: Seq<Seq<char>>,
    read: spec_fn(Seq<char>) -> Result<Seq<char>, Seq<char>>,
) -> Result<Seq<(Seq<char>, Seq<char>)>, Seq<char>> {
    path_list_outcome(filter, list.filter(|p: Seq<char>| p.len() > 0), read)
}

/// A list of path strings that are all empty reads nothing and succeeds
/// with no entries, whatever the file system holds.
pub proof fn lemma_string_list_of_empty_strings_reads_nothing(
    filter: Option<FilterView>,
    list: Seq<Seq<char>>,
    read: spec_fn(Seq<char>) -> Result<Seq<char>, Seq<char>>,
)
    requires
        forall|i: int| 0 <= i < list.len() ==> (#[trigger] list[i]).len() == 0,
    ensures
        string_list_outcome(filter, list, read) == Ok::<Seq<(Seq<char>, Seq<char>)>, Seq<char>>(seq![]),
{
    let ne = list.filter(|p: Seq<char>| p.len() > 0);
    assert(ne.len() == 0) by {
        if ne.len() > 0 {
            let pred = |p: Seq<char>| p.len() > 0;
            list.lemma_filter_pred(pred, 0);
            assert(ne.contains(ne[0]));
            list.lemma_filter_contains_rev(pred, ne[0]);
            let i = choose|i: int| 0 <= i < list.len() && list[i] == ne[0];
            assert(list[i].len() == 0);
        }
    }
    let acc = accepted(filter, ne);
    assert(acc.len() == 0) by {
        match filter {
            Some(f) => {
                assert(ne =~= Seq::<Seq<char>>::empty());
                reveal_with_fuel(Seq::filter, 1);
            },
            None => {},
        }
    }
    let outcomes = acc.map_values(|p: Seq<char>| OutcomeView { path: p, content: read(p) });
    assert(outcomes.len() == 0);
    assert(outcomes =~= Seq::<OutcomeView>::empty());
    assert(read_entries(outcomes) =~= Seq::<(Seq<char>, Seq<char>)>::empty());
}

/// The model of what a batch of reads gives: entries as (path, content)
/// pairs, or the error text.
pub open spec fn result_view(r: Result<Vec<FileEntry>, String>) -> Result<
    Seq<(Seq<char>, Seq<char>)>,
    Seq<char>,
> {
    match r {
        Ok(v) => Ok(entries_view(v@)),
        Err(e) => Err(e@),
    }
}

/// The model of an optional filter.
pub open spec fn filter_view(filter: Option<&Pathfilter>) -> Option<FilterView> {
    match filter {
        Some(f) => Some(f@),
        None => None,
    }
}

/// The paths of a sequence of read outcomes.
pub open spec fn outcome_paths(outcomes: Seq<OutcomeView>) -> Seq<Seq<char>> {
    outcomes.map_values(|o: OutcomeView| o.path)
}

/// Whether each outcome is what reading its path gives in a file system
/// where reading `p` gives `read(p)`.
pub open spec fn outcomes_follow(
    outcomes: Seq<OutcomeView>,
    read: spec_fn(Seq<char>) -> Result<Seq<char>, Seq<char>>,
) -> bool {
    forall|i: int| 0 <= i < outcomes.len() ==> (#[trigger] outcomes[i]).content == read(outcomes[i].path)
}

/// The text of one section of a Markdown collection: a heading with the
/// file's path, then its body.
pub open spec fn markdown_section_text(path: Seq<char>, body: Seq<char>) -> Seq<char> {
    "# "@ + path + "\n"@ + body + "\n"@
}

/// One section of a Markdown collection: a heading with the file's path,
/// then its body (the file's contents, or the message of a failed read).
pub fn markdown_section(path: &str, body: &str) -> (r: String)
    ensures
        r@ == markdown_section_text(path@, body@),
{
    let mut s = String::from_str("# ");
    s.append(path);
    s.append("\n");
    s.append(body);
    s.append("\n");
    s
}

impl FileEntry {
    /// The text that shows this entry.
    pub fn to_display_string(&self) -> (r: String)
        ensures
            r@ == entry_display(self.path@, self.data@),
    {
        let mut s = String::from_str("=== Path: ");
        s.append(self.path.as_str());
        s.append(" ===\n=== Content: ===\n");
        s.append(self.data.as_str());
        s
    }

    /// The nonempty paths of a list, in order: an empty string names no file.
    pub fn non_empty_paths(list: Vec<String>) -> (r: Vec<String>)
        ensures
            strs_view(r@) == strs_view(list@).filter(|p: Seq<char>| p.len() > 0),
    {
        let ghost lv = strs_view(list@);
        let mut out: Vec<String> = Vec::new();
        let mut i: usize = 0;
        assert(lv.take(0) =~= Seq::<Seq<char>>::empty());
        while i < list.len()
            invariant
                i <= list.len(),
                lv == strs_view(list@),
                strs_view(out@) == lv.take(i as int).filter(|p: Seq<char>| p.len() > 0),
            decreases list.len() - i,
        {
            assert(lv.take(i + 1).drop_last() =~= lv.take(i as int));
            assert(lv.take(i + 1).last() == list@[i as int]@);
            reveal_with_fuel(Seq::filter, 1);
            if list[i].as_str().unicode_len() > 0 {
                out.push(list[i].clone());
                assert(strs_view(out@) =~= lv.take(i as int).filter(|p: Seq<char>| p.len() > 0).push(list@[i as int]@));
            }
            i = i + 1;
        }
        assert(lv.take(list.len() as int) =~= lv);
        out
    }

    /// The paths that `filter` accepts for reading, in order; all of them
    /// without a filter.
    pub fn accepted_paths(filter: Option<&Pathfilter>, list: &Vec<String>) -> (r: Vec<String>)
        ensures
            strs_view(r@) == accepted(
                match filter {
                    Some(f) => Some(f@),
                    None => None,
                },
                strs_view(list@),
            ),
    {
        let ghost lv = strs_view(list@);
        let mut out: Vec<String> = Vec::new();
        let mut i: usize = 0;
        assert(lv.take(0) =~= Seq::<Seq<char>>::empty());
        while i < list.len()
            invariant
                i <= list.len(),
                lv == strs_view(list@),
                strs_view(out@) == accepted(
                    match filter {
                        Some(f) => Some(f@),
                        None => None,
                    },
                    lv.take(i as int),
                ),
            decreases list.len() - i,
        {
            assert(lv.take(i + 1).drop_last() =~= lv.take(i as int));
            assert(lv.take(i + 1).last() == list@[i as int]@);
            reveal_with_fuel(Seq::filter, 1);
            let keep = match filter {
                Some(f) => f.contains(list[i].as_str()),
                None => true,
            };
            if keep {
                let ghost before = strs_view(out@);
                out.push(list[i].clone());
                assert(strs_view(out@) =~= before.push(list@[i as int]@));
            }
            i = i + 1;
        }
        assert(lv.take(list.len() as int) =~= lv);
        out
    }

    /// The size of the batches that split `len` items among `workers`: the
    /// quotient rounded up.
    pub fn chunk_size(len: usize, workers: usize) -> (r: usize)
        requires
            workers > 0,
        ensures
            r * workers >= len,
            r == 0 || (r - 1) * workers < len,
    {
        let q = len / workers;
        assert(len % workers != 0 ==> workers >= 2) by {
            if workers == 1 {
                assert(len % 1 == 0);
            }
        }
        assert(workers >= 2 ==> q <= len / 2) by (nonlinear_arith)
            requires
                workers > 0,
                q == len / workers,
        ;
        let r = if len % workers == 0 {
            q
        } else {
            q + 1
        };
        assert(len == q * workers + len % workers) by (nonlinear_arith)
            requires
                workers > 0,
                q == len / workers,
        ;
        assert(r * workers >= len && (r == 0 || (r - 1) * workers < len)) by (nonlinear_arith)
            requires
                len == q * workers + len % workers,
                0 <= len % workers < workers,
                len % workers == 0 ==> r == q,
                len % workers != 0 ==> r == q + 1,
        ;
        r
    }

    /// The entries of a batch of reads, in order, where every read succeeded;
    /// else one error that lists every failed read, `path: error`, a line each.
    pub fn from_read_outcomes(outcomes: Vec<ReadOutcome>) -> (r: Result<Vec<FileEntry>, String>)
        ensures
            match r {
                Ok(v) => failed_reads(outcomes@.map_values(|o: ReadOutcome| o@)).len() == 0
                    && entries_view(v@) == read_entries(outcomes@.map_values(|o: ReadOutcome| o@)),
                Err(e) => failed_reads(outcomes@.map_values(|o: ReadOutcome| o@)).len() > 0 && e@
                    == join_lines(failed_reads(outcomes@.map_values(|o: ReadOutcome| o@))),
            },
    {
        let ghost ov = outcomes@.map_values(|o: ReadOutcome| o@);
        let mut entries: Vec<FileEntry> = Vec::new();
        let mut message = String::new();
        let mut failures: usize = 0;
        let mut i: usize = 0;
        assert(ov.take(0) =~= Seq::<OutcomeView>::empty());
        while i < outcomes.len()
            invariant
                i <= outcomes.len(),
                ov == outcomes@.map_values(|o: ReadOutcome| o@),
                entries_view(entries@) == read_entries(ov.take(i as int)),
                failures as int == failed_reads(ov.take(i as int)).len(),
                failures <= i,
                message@ == join_lines(failed_reads(ov.take(i as int))),
            decreases outcomes.len() - i,
        {
            let ghost t = ov.take(i as int);
            assert(ov.take(i + 1).drop_last() =~= t);
            assert(ov.take(i + 1).last() == outcomes@[i as int]@);
            let o = &outcomes[i];
            match &o.content {
                Ok(d) => {
                    let ghost before = entries_view(entries@);
                    entries.push(FileEntry { path: o.path.clone(), data: d.clone() });
                    assert(entries_view(entries@) =~= before.push((o.path@, d@)));
                    assert(failed_reads(ov.take(i + 1)) =~= failed_reads(t));
                },
                Err(e) => {
                    let line = format_path_error(o.path.as_str(), e.as_str());
                    if failures > 0 {
                        message.append("\n");
                    }
                    message.append(line.as_str());
                    failures = failures + 1;
                    let ghost f = failed_reads(ov.take(i + 1));
                    assert(f =~= failed_reads(t).push(line@));
                    assert(f.drop_last() =~= failed_reads(t));
                    assert(read_entries(ov.take(i + 1)) =~= read_entries(t));
                    proof {
                        if failed_reads(t).len() == 0 {
                            assert(f =~= seq![line@]);
                        }
                    }
                },
            }
            i = i + 1;
        }
        assert(ov.take(outcomes.len() as int) =~= ov);
        if failures > 0 {
            Err(message)
        } else {
            Ok(entries)
        }
    }

    /// The entries read from the paths of `list` that `filter` accepts, given
    /// the outcome of reading each of them, in order: in a file system whose
    /// reads the outcomes follow, this is what reading the list gives.
    pub fn from_list_reads(
        filter: Option<&Pathfilter>,
        list: &Vec<String>,
        outcomes: Vec<ReadOutcome>,
    ) -> (r: Result<Vec<FileEntry>, String>)
        requires
            outcome_paths(outcomes@.map_values(|o: ReadOutcome| o@)) == accepted(
                filter_view(filter),
                strs_view(list@),
            ),
        ensures
            forall|read: spec_fn(Seq<char>) -> Result<Seq<char>, Seq<char>>|
                outcomes_follow(outcomes@.map_values(|o: ReadOutcome| o@), read) ==> result_view(r)
                    == #[trigger] path_list_outcome(filter_view(filter), strs_view(list@), read),
    {
        let ghost ov = outcomes@.map_values(|o: ReadOutcome| o@);
        let ghost fv = filter_view(filter);
        let ghost lv = strs_view(list@);
        let r = FileEntry::from_read_outcomes(outcomes);
        assert forall|read: spec_fn(Seq<char>) -> Result<Seq<char>, Seq<char>>|
            outcomes_follow(ov, read) implies result_view(r) == #[trigger] path_list_outcome(
            fv,
            lv,
            read,
        ) by {
            let paths = accepted(fv, lv);
            let m = paths.map_values(|p: Seq<char>| OutcomeView { path: p, content: read(p) });
            assert(paths.len() == ov.len()) by {
                assert(outcome_paths(ov).len() == ov.len());
            }
            assert forall|i: int| 0 <= i < ov.len() implies m[i] == ov[i] by {
                assert(outcome_paths(ov)[i] == ov[i].path);
                assert(ov[i].content == read(ov[i].path));
            }
            assert(m =~= ov);
        }
        r
    }
}

} // verus!
