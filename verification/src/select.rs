//! Which entries a list of name patterns picks. A pattern picks every entry
//! in whose name it occurs; without patterns every entry is picked.
use crate::entry::{EntryView, FileEntry};
use crate::filter::{
    answered, answers_of, chosen, column_hit, filter_and_track_patterns, pointees, row_hit, texts,
    unmatched,
};
use crate::names::{contains_of, normalize_path_for_archive, occurs_in, replace_char};
use vstd::prelude::*;

verus! {

/// The entries that `refs` point at, as plain values.
pub open spec fn ref_views(refs: Seq<&FileEntry>) -> Seq<EntryView> {
    refs.map_values(|e: &FileEntry| e@)
}

/// The patterns as they are compared with names: every forward slash
/// turned into a backslash.
pub open spec fn archive_forms(patterns: Seq<Seq<char>>) -> Seq<Seq<char>> {
    patterns.map_values(|p: Seq<char>| replace_char(p, '/', '\\'))
}

/// One of the patterns occurs in `name`.
pub open spec fn name_matches(name: Seq<char>, patterns: Seq<Seq<char>>) -> bool {
    exists|j: int| 0 <= j < patterns.len() && occurs_in(name, #[trigger] patterns[j])
}

/// `pattern` occurs in the name of one of the entries.
pub open spec fn pattern_used(files: Seq<EntryView>, pattern: Seq<char>) -> bool {
    exists|i: int| 0 <= i < files.len() && occurs_in((#[trigger] files[i]).name, pattern)
}

/// The entries that the patterns pick, in their order: all of them where
/// there is no pattern, else those in whose name a pattern occurs.
pub open spec fn selection(files: Seq<EntryView>, patterns: Seq<Seq<char>>) -> Seq<EntryView>
    decreases files.len(),
{
    if files.len() == 0 {
        Seq::empty()
    } else if patterns.len() == 0 || name_matches(files.last().name, patterns) {
        selection(files.drop_last(), patterns).push(files.last())
    } else {
        selection(files.drop_last(), patterns)
    }
}

/// Of the first `count` patterns those that occur in no name, in their
/// order.
pub open spec fn unused_patterns(files: Seq<EntryView>, patterns: Seq<Seq<char>>, count: int)
    -> Seq<Seq<char>>
    decreases count,
{
    if count <= 0 || count > patterns.len() {
        Seq::empty()
    } else if pattern_used(files, patterns[count - 1]) {
        unused_patterns(files, patterns, count - 1)
    } else {
        unused_patterns(files, patterns, count - 1).push(patterns[count - 1])
    }
}

/// Without patterns every entry is picked.
pub proof fn lemma_no_pattern_picks_all(files: Seq<EntryView>)
    ensures
        selection(files, Seq::empty()) == files,
    decreases files.len(),
{
    if files.len() > 0 {
        lemma_no_pattern_picks_all(files.drop_last());
        assert(files.drop_last().push(files.last()) =~= files);
    }
}

/// The answers to "does this pattern occur in that name".
pub open spec fn name_answers(
    files: Seq<EntryView>,
    patterns: Seq<Seq<char>>,
    answers: Seq<Seq<bool>>,
) -> bool {
    &&& answers.len() == files.len()
    &&& forall|i: int| 0 <= i < files.len() ==> (#[trigger] answers[i]).len() == patterns.len()
    &&& forall|i: int, j: int|
        0 <= i < files.len() && 0 <= j < patterns.len() ==> (#[trigger] answers[i][j])
            == occurs_in(files[i].name, patterns[j])
}

/// Choosing by the answers to "does this pattern occur in that name" is
/// picking by `selection`.
proof fn lemma_chosen_is_selection(
    files: Seq<&FileEntry>,
    patterns: Seq<Seq<char>>,
    answers: Seq<Seq<bool>>,
    k: int,
)
    requires
        patterns.len() > 0,
        0 <= k <= files.len(),
        name_answers(ref_views(files), patterns, answers),
    ensures
        ref_views(chosen(files.take(k), answers)) == selection(ref_views(files).take(k), patterns),
    decreases k,
{
    let some = files.take(k);
    if k > 0 {
        let init = some.drop_last();
        let last = some.last();
        lemma_chosen_is_selection(files, patterns, answers, k - 1);
        assert(init =~= files.take(k - 1));
        assert(ref_views(files).take(k).drop_last() =~= ref_views(files).take(k - 1));
        assert(ref_views(files).take(k).last() == last@);
        assert(ref_views(files)[k - 1] == last@);
        let row = answers[k - 1];
        if row_hit(row, row.len() as int) {
            let j = choose|j: int| 0 <= j < row.len() && j < row.len() && #[trigger] row[j];
            assert(answers[k - 1][j]);
            assert(occurs_in(last@.name, patterns[j]));
            assert(ref_views(chosen(init, answers).push(last)) =~= ref_views(
                chosen(init, answers),
            ).push(last@));
        } else {
            if name_matches(last@.name, patterns) {
                let j = choose|j: int|
                    0 <= j < patterns.len() && occurs_in(last@.name, #[trigger] patterns[j]);
                assert(answers[k - 1][j]);
                assert(row[j]);
            }
        }
    } else {
        assert(ref_views(some) =~= Seq::<EntryView>::empty());
        assert(ref_views(files).take(0) =~= Seq::<EntryView>::empty());
    }
}

/// The patterns without a yes among the answers to "does this pattern occur
/// in that name" are those that `unused_patterns` names.
proof fn lemma_unmatched_is_unused(
    files: Seq<&FileEntry>,
    patterns: Seq<String>,
    answers: Seq<Seq<bool>>,
    count: int,
)
    requires
        0 <= count <= patterns.len(),
        name_answers(ref_views(files), texts(patterns), answers),
    ensures
        unmatched(patterns, answers, count) == unused_patterns(
            ref_views(files),
            texts(patterns),
            count,
        ),
    decreases count,
{
    if count > 0 {
        lemma_unmatched_is_unused(files, patterns, answers, count - 1);
        let p = patterns[count - 1];
        assert(texts(patterns)[count - 1] == p@);
        if column_hit(answers, answers.len() as int, count - 1) {
            let i = choose|i: int|
                0 <= i < answers.len() && i < answers.len() && (#[trigger] answers[i])[count - 1];
            assert(answers[i][count - 1]);
            assert(occurs_in(ref_views(files)[i].name, p@));
        } else {
            if pattern_used(ref_views(files), p@) {
                let i = choose|i: int|
                    0 <= i < files.len() && occurs_in((#[trigger] ref_views(files)[i]).name, p@);
                assert(answers[i][count - 1]);
            }
        }
    }
}

/// Picks the entries in whose name one of the patterns occurs, and tells
/// which patterns occur in no name. The patterns are compared in their
/// archive form.
pub fn select<'a>(files: &[&'a FileEntry], patterns: &[String]) -> (r: (
    Vec<&'a FileEntry>,
    Vec<String>,
))
    ensures
        ref_views(r.0@) == selection(ref_views(files@), archive_forms(texts(patterns@))),
        texts(r.1@) == unused_patterns(
            ref_views(files@),
            archive_forms(texts(patterns@)),
            patterns@.len() as int,
        ),
{
    let mut forms: Vec<String> = Vec::new();
    let mut j: usize = 0;
    while j < patterns.len()
        invariant
            j <= patterns@.len(),
            texts(forms@) == archive_forms(texts(patterns@)).take(j as int),
        decreases patterns@.len() - j,
    {
        let ghost before = texts(forms@);
        let form = normalize_path_for_archive(patterns[j].as_str());
        forms.push(form);
        proof {
            assert(texts(forms@) =~= before.push(replace_char(patterns@[j as int]@, '/', '\\')));
            assert(archive_forms(texts(patterns@)).take(j + 1) =~= archive_forms(
                texts(patterns@),
            ).take(j as int).push(replace_char(patterns@[j as int]@, '/', '\\')));
        }
        j = j + 1;
    }
    proof {
        assert(archive_forms(texts(patterns@)).take(patterns@.len() as int) =~= archive_forms(
            texts(patterns@),
        ));
    }
    let matcher = |file: &&FileEntry, pattern: &str| -> (b: bool)
        ensures
            b == occurs_in(file@.name, pattern@),
        { contains_of(file.name.as_str(), pattern) };
    let (picked, missing) = filter_and_track_patterns(files, forms.as_slice(), matcher);
    proof {
        if forms@.len() == 0 {
            lemma_no_pattern_picks_all(ref_views(files@));
            assert(texts(forms@) =~= Seq::<Seq<char>>::empty());
        } else {
            let answers = choose|answers: Seq<Seq<bool>>|
                {
                    &&& #[trigger] answers_of(matcher, files@, forms@, answers)
                    &&& pointees(picked@) == chosen(files@, answers)
                    &&& texts(missing@) == unmatched(forms@, answers, forms@.len() as int)
                };
            assert(name_answers(ref_views(files@), texts(forms@), answers)) by {
                assert forall|i: int, j: int|
                    0 <= i < files@.len() && 0 <= j < forms@.len() implies (#[trigger] answers[i][j])
                    == occurs_in(ref_views(files@)[i].name, texts(forms@)[j]) by {
                    assert(answered(matcher, files@[i], forms@[j]@, answers[i][j]));
                }
            }
            lemma_chosen_is_selection(files@, texts(forms@), answers, files@.len() as int);
            assert(files@.take(files@.len() as int) =~= files@);
            assert(ref_views(files@).take(files@.len() as int) =~= ref_views(files@));
            lemma_unmatched_is_unused(files@, forms@, answers, forms@.len() as int);
        }
    }
    let mut out: Vec<&'a FileEntry> = Vec::new();
    let mut i: usize = 0;
    while i < picked.len()
        invariant
            i <= picked@.len(),
            ref_views(out@) == ref_views(pointees(picked@)).take(i as int),
        decreases picked@.len() - i,
    {
        let ghost before = ref_views(out@);
        out.push(*picked[i]);
        proof {
            assert(ref_views(out@) =~= before.push(picked@[i as int]@));
            assert(ref_views(pointees(picked@)).take(i + 1) =~= ref_views(pointees(picked@)).take(
                i as int,
            ).push(picked@[i as int]@));
        }
        i = i + 1;
    }
    proof {
        assert(ref_views(pointees(picked@)).take(picked@.len() as int) =~= ref_views(
            pointees(picked@),
        ));
    }
    (out, missing)
}

/// One line of a listing.
#[derive(Debug)]
pub struct ListRow {
    /// Length of the file once unpacked.
    pub size: u32,
    /// Length of the stored bytes.
    pub packed_size: u32,
    /// Whether the stored bytes are packed.
    pub compressed: bool,
    /// The name of the entry in the archive.
    pub name: String,
}

/// A `ListRow` as plain values.
pub struct RowView {
    pub size: u32,
    pub packed_size: u32,
    pub compressed: bool,
    pub name: Seq<char>,
}

impl View for ListRow {
    type V = RowView;

    open spec fn view(&self) -> RowView {
        RowView {
            size: self.size,
            packed_size: self.packed_size,
            compressed: self.compressed,
            name: self.name@,
        }
    }
}

/// The line that lists `e`.
pub open spec fn row_of(e: EntryView) -> RowView {
    RowView { size: e.size, packed_size: e.packed_size, compressed: e.compressed, name: e.name }
}

/// The rows as plain values.
pub open spec fn row_views(rows: Seq<ListRow>) -> Seq<RowView> {
    rows.map_values(|r: ListRow| r@)
}

/// References to the entries of `files`, in their order.
pub fn refs_of<'a>(files: &'a Vec<FileEntry>) -> (r: Vec<&'a FileEntry>)
    ensures
        ref_views(r@) == crate::entries::entry_views(files@),
{
    let mut out: Vec<&'a FileEntry> = Vec::new();
    let mut i: usize = 0;
    while i < files.len()
        invariant
            i <= files@.len(),
            ref_views(out@) == crate::entries::entry_views(files@).take(i as int),
        decreases files@.len() - i,
    {
        let ghost before = ref_views(out@);
        out.push(&files[i]);
        proof {
            assert(ref_views(out@) =~= before.push(files@[i as int]@));
            assert(crate::entries::entry_views(files@).take(i + 1)
                =~= crate::entries::entry_views(files@).take(i as int).push(files@[i as int]@));
        }
        i = i + 1;
    }
    proof {
        assert(crate::entries::entry_views(files@).take(files@.len() as int)
            =~= crate::entries::entry_views(files@));
    }
    out
}

/// One line for each of `files`, in their order.
pub fn rows_of(files: &[&FileEntry]) -> (r: Vec<ListRow>)
    ensures
        row_views(r@) == ref_views(files@).map_values(|e: EntryView| row_of(e)),
{
    let mut rows: Vec<ListRow> = Vec::new();
    let mut i: usize = 0;
    let ghost wanted = ref_views(files@).map_values(|e: EntryView| row_of(e));
    while i < files.len()
        invariant
            i <= files@.len(),
            wanted == ref_views(files@).map_values(|e: EntryView| row_of(e)),
            row_views(rows@) == wanted.take(i as int),
        decreases files@.len() - i,
    {
        let ghost before = row_views(rows@);
        let file = files[i];
        let row = ListRow {
            size: file.size,
            packed_size: file.packed_size,
            compressed: file.compressed,
            name: file.name.clone(),
        };
        proof {
            assert(row@ == row_of(file@));
            assert(wanted[i as int] == row_of(file@));
            assert(row_views(rows@.push(row)) =~= before.push(row@));
            assert(wanted.take(i + 1) =~= wanted.take(i as int).push(wanted[i as int]));
        }
        rows.push(row);
        i = i + 1;
    }
    proof {
        assert(wanted.take(files@.len() as int) =~= wanted);
    }
    rows
}

} // verus!
