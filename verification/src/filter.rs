//! Choosing items by patterns, and telling which patterns chose nothing.
use vstd::prelude::*;

verus! {

/// `matcher` can be asked about `item` and a pattern that reads `text`.
pub open spec fn askable<T, F: Fn(&T, &str) -> bool>(matcher: F, item: T, text: Seq<char>) -> bool {
    forall|pattern: &str| pattern@ == text ==> #[trigger] matcher.requires((&item, pattern))
}

/// `answer` is what `matcher` can say about `item` and a pattern that reads
/// `text`.
pub open spec fn answered<T, F: Fn(&T, &str) -> bool>(
    matcher: F,
    item: T,
    text: Seq<char>,
    answer: bool,
) -> bool {
    exists|pattern: &str| pattern@ == text && #[trigger] matcher.ensures((&item, pattern), answer)
}

/// `answers` is what `matcher` can say about every pair of an item and a
/// pattern: one row to each item, one answer in it to each pattern.
pub open spec fn answers_of<T, F: Fn(&T, &str) -> bool>(
    matcher: F,
    items: Seq<T>,
    patterns: Seq<String>,
    answers: Seq<Seq<bool>>,
) -> bool {
    &&& answers.len() == items.len()
    &&& forall|i: int| 0 <= i < items.len() ==> (#[trigger] answers[i]).len() == patterns.len()
    &&& forall|i: int, j: int|
        0 <= i < items.len() && 0 <= j < patterns.len() ==> #[trigger] answered(
            matcher,
            items[i],
            patterns[j]@,
            answers[i][j],
        )
}

/// One of the first `count` answers of `row` is yes.
pub open spec fn row_hit(row: Seq<bool>, count: int) -> bool {
    exists|j: int| 0 <= j < count && j < row.len() && #[trigger] row[j]
}

/// One of the first `count` items has a yes for pattern `j`.
pub open spec fn column_hit(answers: Seq<Seq<bool>>, count: int, j: int) -> bool {
    exists|i: int| 0 <= i < count && i < answers.len() && (#[trigger] answers[i])[j]
}

/// The items with a yes for at least one pattern, in their order, each
/// once.
pub open spec fn chosen<T>(items: Seq<T>, answers: Seq<Seq<bool>>) -> Seq<T>
    decreases items.len(),
{
    if items.len() == 0 {
        Seq::empty()
    } else {
        let row = answers[items.len() - 1];
        if row_hit(row, row.len() as int) {
            chosen(items.drop_last(), answers).push(items.last())
        } else {
            chosen(items.drop_last(), answers)
        }
    }
}

/// Of the first `count` patterns those for which no item has a yes, in
/// their order, as texts.
pub open spec fn unmatched(patterns: Seq<String>, answers: Seq<Seq<bool>>, count: int) -> Seq<
    Seq<char>,
>
    decreases count,
{
    if count <= 0 || count > patterns.len() {
        Seq::empty()
    } else if column_hit(answers, answers.len() as int, count - 1) {
        unmatched(patterns, answers, count - 1)
    } else {
        unmatched(patterns, answers, count - 1).push(patterns[count - 1]@)
    }
}

/// The texts of `strings`.
pub open spec fn texts(strings: Seq<String>) -> Seq<Seq<char>> {
    strings.map_values(|s: String| s@)
}

/// What `refs` point at.
pub open spec fn pointees<T>(refs: Seq<&T>) -> Seq<T> {
    refs.map_values(|r: &T| *r)
}

/// The items that are chosen do not depend on rows behind the last item.
proof fn lemma_chosen_rows<T>(items: Seq<T>, a: Seq<Seq<bool>>, b: Seq<Seq<bool>>)
    requires
        forall|i: int| 0 <= i < items.len() ==> a[i] == b[i],
    ensures
        chosen(items, a) == chosen(items, b),
    decreases items.len(),
{
    if items.len() > 0 {
        lemma_chosen_rows(items.drop_last(), a, b);
    }
}

/// The patterns without a yes among `count` patterns and all rows of
/// `answers`, where the yes of each pattern is known.
proof fn lemma_unmatched_known(
    patterns: Seq<String>,
    answers: Seq<Seq<bool>>,
    found: Seq<bool>,
    count: int,
)
    requires
        0 < count <= patterns.len(),
        found.len() == patterns.len(),
        forall|k: int|
            0 <= k < patterns.len() ==> (#[trigger] found[k]) == column_hit(
                answers,
                answers.len() as int,
                k,
            ),
    ensures
        unmatched(patterns, answers, count) == if found[count - 1] {
            unmatched(patterns, answers, count - 1)
        } else {
            unmatched(patterns, answers, count - 1).push(patterns[count - 1]@)
        },
{
}

/// Chooses the items that match at least one of the patterns, and tells
/// which patterns no item matches.
///
/// Without patterns every item is chosen and nothing is reported. With
/// patterns, `matcher` is asked once about every pair of an item and a
/// pattern. The first part of the result holds the items for which it said
/// yes at least once, in their order, each once; the second holds, in their
/// order, the patterns for which it said yes for no item.
pub fn filter_and_track_patterns<'a, T, F: Fn(&T, &str) -> bool>(
    items: &'a [T],
    patterns: &[String],
    matcher: F,
) -> (r: (Vec<&'a T>, Vec<String>))
    requires
        forall|i: int, j: int|
            0 <= i < items@.len() && 0 <= j < patterns@.len() ==> #[trigger] askable(
                matcher,
                items@[i],
                patterns@[j]@,
            ),
    ensures
        patterns@.len() == 0 ==> pointees(r.0@) == items@ && r.1@.len() == 0,
        patterns@.len() > 0 ==> exists|answers: Seq<Seq<bool>>|
            {
                &&& #[trigger] answers_of(matcher, items@, patterns@, answers)
                &&& pointees(r.0@) == chosen(items@, answers)
                &&& texts(r.1@) == unmatched(patterns@, answers, patterns@.len() as int)
            },
{
    let mut kept: Vec<&'a T> = Vec::new();
    let mut missing: Vec<String> = Vec::new();
    let n = items.len();
    let m = patterns.len();
    if m == 0 {
        let mut i: usize = 0;
        while i < n
            invariant
                i <= n,
                n == items@.len(),
                pointees(kept@) == items@.take(i as int),
            decreases n - i,
        {
            let ghost before = pointees(kept@);
            kept.push(&items[i]);
            proof {
                assert(pointees(kept@) =~= before.push(items@[i as int]));
                assert(items@.take(i + 1) =~= items@.take(i as int).push(items@[i as int]));
            }
            i = i + 1;
        }
        proof {
            assert(items@.take(n as int) =~= items@);
        }
        return (kept, missing);
    }
    let mut found: Vec<bool> = Vec::new();
    let mut j: usize = 0;
    while j < m
        invariant
            j <= m,
            found@.len() == j,
            forall|k: int| 0 <= k < j ==> !(#[trigger] found@[k]),
        decreases m - j,
    {
        found.push(false);
        j = j + 1;
    }
    let ghost mut rows: Seq<Seq<bool>> = Seq::empty();
    let mut i: usize = 0;
    proof {
        assert(items@.take(0) =~= Seq::<T>::empty());
    }
    while i < n
        invariant
            i <= n,
            n == items@.len(),
            m == patterns@.len(),
            m > 0,
            found@.len() == m,
            forall|a: int, b: int|
                0 <= a < items@.len() && 0 <= b < patterns@.len() ==> #[trigger] askable(
                    matcher,
                    items@[a],
                    patterns@[b]@,
                ),
            answers_of(matcher, items@.take(i as int), patterns@, rows),
            pointees(kept@) == chosen(items@.take(i as int), rows),
            forall|k: int| 0 <= k < m ==> (#[trigger] found@[k]) == column_hit(rows, i as int, k),
        decreases n - i,
    {
        let item = &items[i];
        let mut hit = false;
        let mut j: usize = 0;
        let ghost mut row: Seq<bool> = Seq::empty();
        while j < m
            invariant
                j <= m,
                i < n,
                n == items@.len(),
                m == patterns@.len(),
                found@.len() == m,
                rows.len() == i,
                *item == items@[i as int],
                forall|a: int, b: int|
                    0 <= a < items@.len() && 0 <= b < patterns@.len() ==> #[trigger] askable(
                        matcher,
                        items@[a],
                        patterns@[b]@,
                    ),
                row.len() == j,
                forall|k: int|
                    0 <= k < j ==> #[trigger] answered(
                        matcher,
                        items@[i as int],
                        patterns@[k]@,
                        row[k],
                    ),
                hit == row_hit(row, j as int),
                forall|k: int|
                    0 <= k < j ==> (#[trigger] found@[k]) == (column_hit(rows, i as int, k)
                        || row[k]),
                forall|k: int|
                    j <= k < m ==> (#[trigger] found@[k]) == column_hit(rows, i as int, k),
            decreases m - j,
        {
            let pattern = patterns[j].as_str();
            proof {
                assert(askable(matcher, items@[i as int], patterns@[j as int]@));
                assert(matcher.requires((item, pattern)));
            }
            let answer = matcher(item, pattern);
            proof {
                let old_row = row;
                row = row.push(answer);
                assert(row[j as int] == answer);
                assert(matcher.ensures((&items@[i as int], pattern), answer));
                assert(answered(matcher, items@[i as int], patterns@[j as int]@, answer));
                assert forall|k: int| 0 <= k < j implies row[k] == old_row[k] by {}
                if answer {
                    assert(row_hit(row, j + 1));
                } else if row_hit(old_row, j as int) {
                    let w = choose|w: int| 0 <= w < j && w < old_row.len() && #[trigger] old_row[w];
                    assert(row[w]);
                } else if row_hit(row, j + 1) {
                    let w = choose|w: int| 0 <= w < j + 1 && w < row.len() && #[trigger] row[w];
                    assert(old_row[w]);
                }
            }
            if answer {
                hit = true;
                found.set(j, true);
            }
            j = j + 1;
        }
        proof {
            let grown = rows.push(row);
            let prefix = items@.take(i + 1);
            assert(prefix.drop_last() =~= items@.take(i as int));
            assert(prefix.last() == *item);
            assert(grown[i as int] == row);
            lemma_chosen_rows(items@.take(i as int), rows, grown);
            assert(answers_of(matcher, prefix, patterns@, grown)) by {
                assert forall|a: int, b: int|
                    0 <= a < prefix.len() && 0 <= b < patterns@.len() implies #[trigger] answered(
                    matcher,
                    prefix[a],
                    patterns@[b]@,
                    grown[a][b],
                ) by {
                    if a < i {
                        assert(grown[a] == rows[a]);
                        assert(items@.take(i as int)[a] == prefix[a]);
                        assert(answered(
                            matcher,
                            items@.take(i as int)[a],
                            patterns@[b]@,
                            rows[a][b],
                        ));
                    } else {
                        assert(grown[a][b] == row[b]);
                    }
                }
                assert forall|a: int| 0 <= a < prefix.len() implies (#[trigger] grown[a]).len()
                    == patterns@.len() by {
                    if a < i {
                        assert(grown[a] == rows[a]);
                    }
                }
            }
            assert forall|k: int| 0 <= k < m implies (#[trigger] found@[k]) == column_hit(
                grown,
                i + 1,
                k,
            ) by {
                if column_hit(rows, i as int, k) {
                    let w = choose|w: int| 0 <= w < i && w < rows.len() && (#[trigger] rows[w])[k];
                    assert(grown[w][k]);
                } else if row[k] {
                    assert(grown[i as int][k]);
                } else if column_hit(grown, i + 1, k) {
                    let w = choose|w: int|
                        0 <= w < i + 1 && w < grown.len() && (#[trigger] grown[w])[k];
                    if w < i {
                        assert(rows[w][k]);
                    }
                }
            }
            rows = grown;
        }
        if hit {
            let ghost before = pointees(kept@);
            kept.push(item);
            proof {
                assert(pointees(kept@) =~= before.push(*item));
            }
        }
        i = i + 1;
    }
    proof {
        assert(items@.take(n as int) =~= items@);
    }
    let mut j: usize = 0;
    while j < m
        invariant
            j <= m,
            m == patterns@.len(),
            found@.len() == m,
            rows.len() == n,
            forall|k: int|
                0 <= k < m ==> (#[trigger] found@[k]) == column_hit(rows, rows.len() as int, k),
            texts(missing@) == unmatched(patterns@, rows, j as int),
        decreases m - j,
    {
        proof {
            lemma_unmatched_known(patterns@, rows, found@, j + 1);
        }
        if !found[j] {
            let ghost before = texts(missing@);
            let copy = patterns[j].clone();
            missing.push(copy);
            proof {
                assert(texts(missing@) =~= before.push(patterns@[j as int]@));
            }
        }
        j = j + 1;
    }
    proof {
        assert(answers_of(matcher, items@, patterns@, rows));
    }
    (kept, missing)
}

} // verus!
