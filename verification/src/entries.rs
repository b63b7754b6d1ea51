//! Rows of entries: finding one by name, taking in a batch of new ones, and
//! the order by name that the flat layout keeps.
use crate::entry::{EntryView, FileEntry};
use crate::names::{lowercase_of, lowercased};
use vstd::prelude::*;
use vstd::slice::slice_to_vec;
use vstd::utf8::encode_utf8;

verus! {

/// How names are compared when entries are put in order.
#[derive(Debug, Clone, Copy, PartialEq, Eq, Structural)]
pub enum NameOrder {
    /// By the bytes of the name in lower case.
    IgnoreCase,
    /// By the bytes of the name as it is.
    Exact,
}

/// The entries of `files` as plain values.
pub open spec fn entry_views(files: Seq<FileEntry>) -> Seq<EntryView> {
    files.map_values(|e: FileEntry| e@)
}

/// The bytes by which a name is compared.
pub open spec fn sort_key(name: Seq<char>, order: NameOrder) -> Seq<u8> {
    match order {
        NameOrder::IgnoreCase => encode_utf8(lowercased(name)),
        NameOrder::Exact => encode_utf8(name),
    }
}

/// `a` comes no later than `b` in the order of a dictionary: the first byte
/// in which they differ is smaller in `a`, or `a` is where `b` begins.
pub open spec fn bytes_le(a: Seq<u8>, b: Seq<u8>) -> bool
    decreases a.len(),
{
    if a.len() == 0 {
        true
    } else if b.len() == 0 {
        false
    } else if a[0] != b[0] {
        a[0] < b[0]
    } else {
        bytes_le(a.drop_first(), b.drop_first())
    }
}

/// Entry `a` may stand before entry `b`.
pub open spec fn name_le(a: EntryView, b: EntryView, order: NameOrder) -> bool {
    bytes_le(sort_key(a.name, order), sort_key(b.name, order))
}

/// Every entry may stand before each one that follows it.
pub open spec fn is_sorted(s: Seq<EntryView>, order: NameOrder) -> bool {
    forall|i: int, j: int| 0 <= i < j < s.len() ==> name_le(s[i], s[j], order)
}

/// `e` put into `s` behind the last entry that may stand before it.
pub open spec fn insert_sorted(s: Seq<EntryView>, e: EntryView, order: NameOrder) -> Seq<
    EntryView,
>
    decreases s.len(),
{
    if s.len() == 0 {
        seq![e]
    } else if name_le(s.last(), e, order) {
        s.push(e)
    } else {
        insert_sorted(s.drop_last(), e, order).push(s.last())
    }
}

/// The entries of `s` in order, entries that compare equal staying in the
/// order in which they were.
pub open spec fn sorted_by_name(s: Seq<EntryView>, order: NameOrder) -> Seq<EntryView>
    decreases s.len(),
{
    if s.len() == 0 {
        Seq::empty()
    } else {
        insert_sorted(sorted_by_name(s.drop_last(), order), s.last(), order)
    }
}

/// Some entry of `s` carries `name`.
pub open spec fn has_name(s: Seq<EntryView>, name: Seq<char>) -> bool {
    exists|i: int| 0 <= i < s.len() && (#[trigger] s[i]).name == name
}

/// Index of the first entry of `s` that carries `name`, or the length of
/// `s` where none does.
pub open spec fn index_of_name(s: Seq<EntryView>, name: Seq<char>) -> int
    decreases s.len(),
{
    if s.len() == 0 || s[0].name == name {
        0
    } else {
        1 + index_of_name(s.drop_first(), name)
    }
}

/// The entries of `s` whose name no entry of `batch` carries.
pub open spec fn without_names(s: Seq<EntryView>, batch: Seq<EntryView>) -> Seq<EntryView>
    decreases s.len(),
{
    if s.len() == 0 {
        Seq::empty()
    } else if has_name(batch, s.last().name) {
        without_names(s.drop_last(), batch)
    } else {
        without_names(s.drop_last(), batch).push(s.last())
    }
}

/// The entries of `batch` without those whose name an earlier entry of
/// `batch` carries already.
pub open spec fn first_of_each_name(batch: Seq<EntryView>) -> Seq<EntryView>
    decreases batch.len(),
{
    if batch.len() == 0 {
        Seq::empty()
    } else if has_name(batch.drop_last(), batch.last().name) {
        first_of_each_name(batch.drop_last())
    } else {
        first_of_each_name(batch.drop_last()).push(batch.last())
    }
}

/// What an archive holds once `batch` has joined `existing`: an entry of
/// the batch replaces the entry of that name, and of two entries of the
/// batch with one name the first is kept.
pub open spec fn merged(existing: Seq<EntryView>, batch: Seq<EntryView>) -> Seq<EntryView> {
    without_names(existing, batch) + first_of_each_name(batch)
}

/// Any two byte strings can be compared.
pub proof fn lemma_bytes_le_total(a: Seq<u8>, b: Seq<u8>)
    ensures
        bytes_le(a, b) || bytes_le(b, a),
    decreases a.len(),
{
    if a.len() > 0 && b.len() > 0 && a[0] == b[0] {
        lemma_bytes_le_total(a.drop_first(), b.drop_first());
    }
}

/// The order carries over a middle term.
pub proof fn lemma_bytes_le_transitive(a: Seq<u8>, b: Seq<u8>, c: Seq<u8>)
    requires
        bytes_le(a, b),
        bytes_le(b, c),
    ensures
        bytes_le(a, c),
    decreases a.len(),
{
    if a.len() > 0 && b.len() > 0 && c.len() > 0 && a[0] == b[0] && b[0] == c[0] {
        lemma_bytes_le_transitive(a.drop_first(), b.drop_first(), c.drop_first());
    }
}

/// Whether `a` comes no later than `b`.
fn compare_bytes(a: &[u8], b: &[u8]) -> (r: bool)
    ensures
        r == bytes_le(a@, b@),
{
    let mut i: usize = 0;
    proof {
        assert(a@.skip(0) =~= a@);
        assert(b@.skip(0) =~= b@);
    }
    loop
        invariant
            i <= a@.len(),
            i <= b@.len(),
            bytes_le(a@, b@) == bytes_le(a@.skip(i as int), b@.skip(i as int)),
        decreases a@.len() - i,
    {
        if i >= a.len() {
            return true;
        }
        if i >= b.len() {
            return false;
        }
        proof {
            assert(a@.skip(i as int)[0] == a@[i as int]);
            assert(b@.skip(i as int)[0] == b@[i as int]);
            assert(a@.skip(i as int).drop_first() == a@.skip(i + 1));
            assert(b@.skip(i as int).drop_first() == b@.skip(i + 1));
        }
        if a[i] != b[i] {
            return a[i] < b[i];
        }
        i = i + 1;
    }
}

/// The bytes by which `name` is compared.
fn key_of(name: &str, order: NameOrder) -> (r: Vec<u8>)
    ensures
        r@ == sort_key(name@, order),
{
    match order {
        NameOrder::IgnoreCase => {
            let lower = lowercase_of(name);
            slice_to_vec(lower.as_str().as_bytes())
        },
        NameOrder::Exact => slice_to_vec(name.as_bytes()),
    }
}

/// Whether some entry of `files` carries `name`.
pub fn contains_name(files: &Vec<FileEntry>, name: &String) -> (r: bool)
    ensures
        r == has_name(entry_views(files@), name@),
{
    let mut i: usize = 0;
    while i < files.len()
        invariant
            i <= files@.len(),
            forall|j: int| 0 <= j < i ==> (#[trigger] entry_views(files@)[j]).name != name@,
        decreases files@.len() - i,
    {
        if files[i].name == *name {
            assert(entry_views(files@)[i as int].name == name@);
            return true;
        }
        i = i + 1;
    }
    false
}

/// Puts the entries in order, entries that compare equal staying in the
/// order in which they were.
pub fn sort_entries(files: &mut Vec<FileEntry>, order: NameOrder)
    ensures
        entry_views(final(files)@) == sorted_by_name(entry_views(old(files)@), order),
{
    let ghost start = entry_views(files@);
    let n = files.len();
    let mut keys: Vec<Vec<u8>> = Vec::new();
    let mut i: usize = 0;
    proof {
        assert(start.take(0) =~= Seq::<EntryView>::empty());
        assert(entry_views(files@).take(0) =~= Seq::<EntryView>::empty());
    }
    while i < n
        invariant
            i <= n,
            n == files@.len(),
            n == start.len(),
            keys@.len() == i,
            forall|j: int|
                0 <= j < i ==> (#[trigger] keys@[j])@ == sort_key(
                    entry_views(files@)[j].name,
                    order,
                ),
            entry_views(files@).take(i as int) == sorted_by_name(start.take(i as int), order),
            entry_views(files@).skip(i as int) == start.skip(i as int),
        decreases n - i,
    {
        let ghost all = entry_views(files@);
        let ghost done = all.take(i as int);
        let ghost e = all[i as int];
        let key = key_of(files[i].name.as_str(), order);
        let mut j: usize = i;
        proof {
            assert(done.take(i as int) =~= done);
            assert(done.skip(i as int) =~= Seq::<EntryView>::empty());
            assert(insert_sorted(done, e, order) + Seq::<EntryView>::empty() =~= insert_sorted(
                done,
                e,
                order,
            ));
        }
        while j > 0 && !compare_bytes(keys[j - 1].as_slice(), key.as_slice())
            invariant
                j <= i < n,
                n == files@.len(),
                keys@.len() == i,
                all == entry_views(files@),
                done == all.take(i as int),
                e == all[i as int],
                key@ == sort_key(e.name, order),
                forall|k: int|
                    0 <= k < i ==> (#[trigger] keys@[k])@ == sort_key(all[k].name, order),
                insert_sorted(done, e, order) == insert_sorted(done.take(j as int), e, order)
                    + done.skip(j as int),
            decreases j,
        {
            proof {
                let head = done.take(j as int);
                assert(head.last() == all[j - 1]);
                assert(head.drop_last() =~= done.take(j - 1));
                assert(!name_le(head.last(), e, order));
                assert(insert_sorted(done.take(j - 1), e, order).push(head.last()) + done.skip(
                    j as int,
                ) =~= insert_sorted(done.take(j - 1), e, order) + done.skip(j - 1));
            }
            j = j - 1;
        }
        proof {
            let head = done.take(j as int);
            if j > 0 {
                assert(head.last() == all[j - 1]);
                assert(name_le(head.last(), e, order));
            }
            assert(insert_sorted(head, e, order) == head.push(e));
        }
        let ghost before = files@;
        let moved = files.remove(i);
        files.insert(j, moved);
        keys.insert(j, key);
        proof {
            let now = entry_views(files@);
            assert(files@ == before.remove(i as int).insert(j as int, before[i as int]));
            assert(now.take(i + 1) =~= done.take(j as int).push(e) + done.skip(j as int));
            assert(now.skip(i + 1) =~= start.skip(i + 1)) by {
                assert forall|k: int| 0 <= k < n - i - 1 implies (#[trigger] now.skip(i + 1)[k])
                    == start.skip(i + 1)[k] by {
                    assert(all.skip(i as int)[k + 1] == start.skip(i as int)[k + 1]);
                }
            }
            assert(start.take(i + 1).drop_last() =~= start.take(i as int));
            assert(start.take(i + 1).last() == e) by {
                assert(all.skip(i as int)[0] == start.skip(i as int)[0]);
            }
            assert forall|k: int| 0 <= k < i + 1 implies (#[trigger] keys@[k])@ == sort_key(
                now[k].name,
                order,
            ) by {
                if k < j {
                    assert(now[k] == all[k]);
                } else if k == j {
                    assert(now[k] == e);
                } else {
                    assert(now[k] == all[k - 1]);
                }
            }
        }
        i = i + 1;
    }
    proof {
        assert(entry_views(files@).take(n as int) =~= entry_views(files@));
        assert(start.take(n as int) =~= start);
    }
}

/// Takes every entry out of `files` whose name some entry of `batch`
/// carries.
pub(crate) fn drop_named(files: &mut Vec<FileEntry>, batch: &Vec<FileEntry>)
    ensures
        entry_views(final(files)@) == without_names(
            entry_views(old(files)@),
            entry_views(batch@),
        ),
{
    let ghost start = entry_views(files@);
    let ghost names = entry_views(batch@);
    let ghost mut seen: int = 0;
    let mut i: usize = 0;
    proof {
        assert(start.take(0) =~= Seq::<EntryView>::empty());
        assert(entry_views(files@).take(0) =~= Seq::<EntryView>::empty());
    }
    while i < files.len()
        invariant
            i <= files@.len(),
            0 <= seen <= start.len(),
            names == entry_views(batch@),
            files@.len() - i == start.len() - seen,
            entry_views(files@).take(i as int) == without_names(start.take(seen), names),
            entry_views(files@).skip(i as int) == start.skip(seen),
        decreases files@.len() - i,
    {
        let ghost all = entry_views(files@);
        proof {
            assert(all.skip(i as int)[0] == start.skip(seen)[0]);
            assert(start.take(seen + 1).drop_last() =~= start.take(seen));
            assert(start.take(seen + 1).last() == all[i as int]);
        }
        if contains_name(batch, &files[i].name) {
            files.remove(i);
            proof {
                let now = entry_views(files@);
                assert(now.take(i as int) =~= all.take(i as int));
                assert(now.skip(i as int) =~= start.skip(seen + 1)) by {
                    assert forall|k: int| 0 <= k < now.len() - i implies (#[trigger] now.skip(
                        i as int,
                    )[k]) == start.skip(seen + 1)[k] by {
                        assert(all.skip(i as int)[k + 1] == start.skip(seen)[k + 1]);
                    }
                }
            }
        } else {
            proof {
                assert(all.take(i + 1) =~= all.take(i as int).push(all[i as int]));
                assert(all.skip(i + 1) =~= start.skip(seen + 1)) by {
                    assert forall|k: int| 0 <= k < all.len() - i - 1 implies (#[trigger] all.skip(
                        i + 1,
                    )[k]) == start.skip(seen + 1)[k] by {
                        assert(all.skip(i as int)[k + 1] == start.skip(seen)[k + 1]);
                    }
                }
            }
            i = i + 1;
        }
        proof {
            seen = seen + 1;
        }
    }
    proof {
        assert(entry_views(files@).take(i as int) =~= entry_views(files@));
        assert(start.take(seen) =~= start);
    }
}

/// The first entry of each name in `batch`, last first.
pub(crate) fn firsts_reversed(batch: Vec<FileEntry>) -> (r: Vec<FileEntry>)
    ensures
        entry_views(r@).reverse() == first_of_each_name(entry_views(batch@)),
{
    let ghost names = entry_views(batch@);
    let mut batch = batch;
    let mut firsts: Vec<FileEntry> = Vec::new();
    proof {
        assert(first_of_each_name(names) + entry_views(firsts@).reverse() =~= first_of_each_name(
            names,
        ));
    }
    while batch.len() > 0
        invariant
            first_of_each_name(names) == first_of_each_name(entry_views(batch@)) + entry_views(
                firsts@,
            ).reverse(),
        decreases batch@.len(),
    {
        let ghost before = entry_views(batch@);
        let ghost found = entry_views(firsts@);
        let entry = batch.pop().unwrap();
        proof {
            assert(entry_views(batch@) =~= before.drop_last());
            assert(before.last() == entry@);
        }
        if !contains_name(&batch, &entry.name) {
            firsts.push(entry);
            proof {
                assert(entry_views(firsts@) =~= found.push(entry@));
                assert(first_of_each_name(before.drop_last()).push(entry@) + found.reverse()
                    =~= first_of_each_name(before.drop_last()) + found.push(entry@).reverse());
            }
        }
    }
    proof {
        assert(first_of_each_name(names) =~= entry_views(firsts@).reverse());
    }
    firsts
}

/// Takes `batch` into `files`: an entry of the batch replaces the entry of
/// that name, and of two entries of the batch with one name the first is
/// kept. The entries that stay keep their order, and those of the batch
/// follow them in theirs.
pub fn merge_batch(files: &mut Vec<FileEntry>, batch: Vec<FileEntry>)
    ensures
        entry_views(final(files)@) == merged(entry_views(old(files)@), entry_views(batch@)),
{
    drop_named(files, &batch);
    let ghost kept = entry_views(files@);
    let mut firsts = firsts_reversed(batch);
    let ghost wanted = entry_views(firsts@).reverse();
    let ghost total = firsts@.len();
    proof {
        assert(kept + wanted.take(0) =~= kept);
        assert(wanted.skip(0) =~= wanted);
    }
    while firsts.len() > 0
        invariant
            total == wanted.len(),
            firsts@.len() <= total,
            entry_views(firsts@).reverse() == wanted.skip(total - firsts@.len()),
            entry_views(files@) == kept + wanted.take(total - firsts@.len()),
        decreases firsts@.len(),
    {
        let ghost left = entry_views(firsts@);
        let ghost so_far = entry_views(files@);
        let ghost k = total - firsts@.len();
        let entry = firsts.pop().unwrap();
        proof {
            assert(left.last() == entry@);
            assert(left.reverse()[0] == entry@);
            assert(wanted.skip(k)[0] == wanted[k]);
            assert(entry_views(firsts@) =~= left.drop_last());
            assert(left.drop_last().reverse() =~= left.reverse().skip(1));
            assert(wanted.skip(k).skip(1) =~= wanted.skip(k + 1));
            assert(so_far.push(entry@) =~= kept + wanted.take(k + 1));
        }
        files.push(entry);
        proof {
            assert(entry_views(files@) =~= so_far.push(entry@));
        }
    }
    proof {
        assert(wanted.take(total as int) =~= wanted);
    }
}

/// Where the first entry of `s` that carries `name` is found,
/// `index_of_name` is found.
pub proof fn lemma_index_of_name(s: Seq<EntryView>, name: Seq<char>, k: int)
    requires
        0 <= k <= s.len(),
        forall|i: int| 0 <= i < k ==> (#[trigger] s[i]).name != name,
        k == s.len() || s[k].name == name,
    ensures
        index_of_name(s, name) == k,
        k < s.len() <==> has_name(s, name),
    decreases s.len(),
{
    if k > 0 {
        assert(s[0].name != name);
        lemma_index_of_name(s.drop_first(), name, k - 1);
    }
}

/// Index of the first entry that carries `name`, or the number of entries
/// where none does.
pub fn find_name(files: &Vec<FileEntry>, name: &String) -> (r: usize)
    ensures
        r == index_of_name(entry_views(files@), name@),
        r <= files@.len(),
        r < files@.len() <==> has_name(entry_views(files@), name@),
{
    let mut i: usize = 0;
    while i < files.len() && files[i].name != *name
        invariant
            i <= files@.len(),
            forall|j: int| 0 <= j < i ==> (#[trigger] entry_views(files@)[j]).name != name@,
        decreases files@.len() - i,
    {
        i = i + 1;
    }
    proof {
        if i < files@.len() {
            assert(entry_views(files@)[i as int].name == name@);
        }
        lemma_index_of_name(entry_views(files@), name@, i as int);
    }
    i
}

/// Putting an entry in its place keeps every entry, and adds the one.
pub proof fn lemma_insert_sorted_members(s: Seq<EntryView>, e: EntryView, order: NameOrder)
    ensures
        insert_sorted(s, e, order).len() == s.len() + 1,
        insert_sorted(s, e, order).to_multiset() == s.to_multiset().insert(e),
        forall|k: int|
            0 <= k < s.len() + 1 ==> (#[trigger] insert_sorted(s, e, order)[k]) == e
                || s.contains(insert_sorted(s, e, order)[k]),
    decreases s.len(),
{
    if s.len() == 0 {
        assert(seq![e] =~= s.push(e));
        vstd::seq_lib::to_multiset_build(s, e);
    } else if name_le(s.last(), e, order) {
        vstd::seq_lib::to_multiset_build(s, e);
        assert forall|k: int| 0 <= k < s.len() + 1 implies (#[trigger] s.push(e)[k]) == e
            || s.contains(s.push(e)[k]) by {
            if k < s.len() {
                assert(s[k] == s.push(e)[k]);
            }
        }
    } else {
        let init = s.drop_last();
        let r = insert_sorted(init, e, order);
        lemma_insert_sorted_members(init, e, order);
        assert(s =~= init.push(s.last()));
        vstd::seq_lib::to_multiset_build(init, s.last());
        vstd::seq_lib::to_multiset_build(r, s.last());
        assert(r.push(s.last()).to_multiset() =~= s.to_multiset().insert(e));
        assert forall|k: int| 0 <= k < s.len() + 1 implies (#[trigger] r.push(s.last())[k]) == e
            || s.contains(r.push(s.last())[k]) by {
            if k < s.len() {
                assert(r.push(s.last())[k] == r[k]);
                if r[k] != e {
                    let m = choose|m: int| 0 <= m < init.len() && init[m] == r[k];
                    assert(s[m] == r[k]);
                }
            } else {
                assert(s[s.len() - 1] == s.last());
            }
        }
    }
}

/// Putting an entry in its place in an ordered row leaves the row ordered.
pub proof fn lemma_insert_sorted_is_sorted(s: Seq<EntryView>, e: EntryView, order: NameOrder)
    requires
        is_sorted(s, order),
    ensures
        is_sorted(insert_sorted(s, e, order), order),
    decreases s.len(),
{
    let r = insert_sorted(s, e, order);
    if s.len() == 0 {
    } else if name_le(s.last(), e, order) {
        assert forall|i: int, j: int| 0 <= i < j < r.len() implies name_le(r[i], r[j], order) by {
            if j == s.len() && i < s.len() - 1 {
                assert(name_le(s[i], s[s.len() - 1], order));
                lemma_bytes_le_transitive(
                    sort_key(s[i].name, order),
                    sort_key(s.last().name, order),
                    sort_key(e.name, order),
                );
            }
        }
    } else {
        let init = s.drop_last();
        let head = insert_sorted(init, e, order);
        assert(is_sorted(init, order)) by {
            assert forall|i: int, j: int| 0 <= i < j < init.len() implies name_le(
                init[i],
                init[j],
                order,
            ) by {
                assert(name_le(s[i], s[j], order));
            }
        }
        lemma_insert_sorted_is_sorted(init, e, order);
        lemma_insert_sorted_members(init, e, order);
        lemma_bytes_le_total(sort_key(s.last().name, order), sort_key(e.name, order));
        assert forall|i: int, j: int| 0 <= i < j < r.len() implies name_le(r[i], r[j], order) by {
            if j == s.len() {
                if head[i] == e {
                } else {
                    let m = choose|m: int| 0 <= m < init.len() && init[m] == head[i];
                    assert(name_le(s[m], s[s.len() - 1], order));
                }
            } else {
                assert(name_le(head[i], head[j], order));
            }
        }
    }
}

/// The result of sorting is in order.
pub proof fn lemma_sorted_by_name_is_sorted(s: Seq<EntryView>, order: NameOrder)
    ensures
        is_sorted(sorted_by_name(s, order), order),
    decreases s.len(),
{
    if s.len() > 0 {
        lemma_sorted_by_name_is_sorted(s.drop_last(), order);
        lemma_insert_sorted_is_sorted(sorted_by_name(s.drop_last(), order), s.last(), order);
    }
}

/// Sorting neither loses nor makes an entry: the result holds each entry
/// as often as the row that was sorted.
pub proof fn lemma_sorted_by_name_same_entries(s: Seq<EntryView>, order: NameOrder)
    ensures
        sorted_by_name(s, order).len() == s.len(),
        sorted_by_name(s, order).to_multiset() == s.to_multiset(),
    decreases s.len(),
{
    if s.len() > 0 {
        lemma_sorted_by_name_same_entries(s.drop_last(), order);
        lemma_insert_sorted_members(sorted_by_name(s.drop_last(), order), s.last(), order);
        assert(s =~= s.drop_last().push(s.last()));
        vstd::seq_lib::to_multiset_build(s.drop_last(), s.last());
    } else {
        assert(sorted_by_name(s, order) =~= s);
    }
}

/// Sorting a row that is in order already changes nothing.
pub proof fn lemma_sorting_sorted_changes_nothing(s: Seq<EntryView>, order: NameOrder)
    requires
        is_sorted(s, order),
    ensures
        sorted_by_name(s, order) == s,
    decreases s.len(),
{
    if s.len() > 0 {
        let init = s.drop_last();
        assert forall|i: int, j: int| 0 <= i < j < init.len() implies name_le(
            init[i],
            init[j],
            order,
        ) by {
            assert(name_le(s[i], s[j], order));
        }
        lemma_sorting_sorted_changes_nothing(init, order);
        if init.len() > 0 {
            assert(name_le(s[init.len() - 1], s[s.len() - 1], order));
        }
        assert(init.push(s.last()) =~= s);
    }
}

/// Sorting twice gives what sorting once gives.
pub proof fn lemma_sorting_twice(s: Seq<EntryView>, order: NameOrder)
    ensures
        sorted_by_name(sorted_by_name(s, order), order) == sorted_by_name(s, order),
{
    lemma_sorted_by_name_is_sorted(s, order);
    lemma_sorting_sorted_changes_nothing(sorted_by_name(s, order), order);
}

/// Number of entries of `s` that carry `name`.
pub open spec fn count_named(s: Seq<EntryView>, name: Seq<char>) -> nat
    decreases s.len(),
{
    if s.len() == 0 {
        0
    } else if s.last().name == name {
        count_named(s.drop_last(), name) + 1
    } else {
        count_named(s.drop_last(), name)
    }
}

/// A name is counted at least once exactly where an entry carries it.
pub proof fn lemma_count_and_has(s: Seq<EntryView>, name: Seq<char>)
    ensures
        count_named(s, name) > 0 <==> has_name(s, name),
    decreases s.len(),
{
    if s.len() > 0 {
        let init = s.drop_last();
        lemma_count_and_has(init, name);
        if has_name(s, name) {
            let i = choose|i: int| 0 <= i < s.len() && (#[trigger] s[i]).name == name;
            if i < s.len() - 1 {
                assert(init[i].name == name);
            }
        }
        if has_name(init, name) {
            let i = choose|i: int| 0 <= i < init.len() && (#[trigger] init[i]).name == name;
            assert(s[i].name == name);
        }
        if s.last().name == name {
            assert(s[s.len() - 1].name == name);
        }
    }
}

/// Counting over two rows joined is counting over each and adding up.
pub proof fn lemma_count_joined(a: Seq<EntryView>, b: Seq<EntryView>, name: Seq<char>)
    ensures
        count_named(a + b, name) == count_named(a, name) + count_named(b, name),
    decreases b.len(),
{
    if b.len() == 0 {
        assert(a + b =~= a);
    } else {
        lemma_count_joined(a, b.drop_last(), name);
        assert((a + b).drop_last() =~= a + b.drop_last());
        assert((a + b).last() == b.last());
    }
}

/// Nothing that stays behind carries a name of the batch.
pub proof fn lemma_without_names_count(s: Seq<EntryView>, batch: Seq<EntryView>, name: Seq<char>)
    requires
        has_name(batch, name),
    ensures
        count_named(without_names(s, batch), name) == 0,
    decreases s.len(),
{
    if s.len() > 0 {
        lemma_without_names_count(s.drop_last(), batch, name);
        if !has_name(batch, s.last().name) {
            let kept = without_names(s.drop_last(), batch);
            assert(kept.push(s.last()).drop_last() =~= kept);
        }
    }
}

/// Each name of a batch is kept once, with the first entry that carries
/// it.
pub proof fn lemma_first_of_each_name(batch: Seq<EntryView>, name: Seq<char>)
    requires
        has_name(batch, name),
    ensures
        count_named(first_of_each_name(batch), name) == 1,
        0 <= index_of_name(batch, name) < batch.len(),
        batch[index_of_name(batch, name)].name == name,
        first_of_each_name(batch).contains(batch[index_of_name(batch, name)]),
    decreases batch.len(),
{
    let init = batch.drop_last();
    let last = batch.last();
    let kept = first_of_each_name(init);
    lemma_index_found(batch, name);
    if has_name(init, name) {
        lemma_first_of_each_name(init, name);
        lemma_index_found(init, name);
        lemma_index_in_front(batch, name);
        let first = init[index_of_name(init, name)];
        let k = choose|k: int| 0 <= k < kept.len() && kept[k] == first;
        if has_name(init, last.name) {
        } else {
            assert(last.name != name);
            assert(kept.push(last).drop_last() =~= kept);
            assert(kept.push(last)[k] == first);
        }
    } else {
        // The last entry is the first of its name.
        let i = choose|i: int| 0 <= i < batch.len() && (#[trigger] batch[i]).name == name;
        if i < batch.len() - 1 {
            assert(init[i].name == name);
        }
        assert(last.name == name);
        lemma_count_and_has(init, name);
        lemma_first_has_names_of(init, name);
        lemma_count_and_has(kept, name);
        assert(kept.push(last).drop_last() =~= kept);
        assert forall|j: int| 0 <= j < batch.len() - 1 implies (#[trigger] batch[j]).name
            != name by {
            if batch[j].name == name {
                assert(init[j].name == name);
            }
        }
        lemma_index_of_name(batch, name, batch.len() - 1);
        assert(kept.push(last)[kept.len() as int] == last);
    }
}

/// The first entries of a batch carry no name that the batch does not.
proof fn lemma_first_has_names_of(batch: Seq<EntryView>, name: Seq<char>)
    requires
        !has_name(batch, name),
    ensures
        !has_name(first_of_each_name(batch), name),
    decreases batch.len(),
{
    if batch.len() > 0 {
        let init = batch.drop_last();
        if has_name(init, name) {
            let i = choose|i: int| 0 <= i < init.len() && (#[trigger] init[i]).name == name;
            assert(batch[i].name == name);
        }
        lemma_first_has_names_of(init, name);
        let kept = first_of_each_name(init);
        if has_name(first_of_each_name(batch), name) {
            let r = first_of_each_name(batch);
            let i = choose|i: int| 0 <= i < r.len() && (#[trigger] r[i]).name == name;
            if i < kept.len() {
                assert(kept[i].name == name);
            } else {
                assert(batch[batch.len() - 1].name == name);
            }
        }
    }
}

/// A name that is carried is found at an index that carries it.
proof fn lemma_index_found(s: Seq<EntryView>, name: Seq<char>)
    requires
        has_name(s, name),
    ensures
        0 <= index_of_name(s, name) < s.len(),
        s[index_of_name(s, name)].name == name,
    decreases s.len(),
{
    if s[0].name != name {
        let i = choose|i: int| 0 <= i < s.len() && (#[trigger] s[i]).name == name;
        assert(s.drop_first()[i - 1].name == name);
        lemma_index_found(s.drop_first(), name);
        assert(s.drop_first()[index_of_name(s.drop_first(), name)] == s[index_of_name(s, name)]);
    }
}

/// The first entry of a name stays the first when an entry is put behind
/// the row.
proof fn lemma_index_in_front(s: Seq<EntryView>, name: Seq<char>)
    requires
        s.len() > 0,
        has_name(s.drop_last(), name),
    ensures
        index_of_name(s, name) == index_of_name(s.drop_last(), name),
    decreases s.len(),
{
    let init = s.drop_last();
    if s[0].name != name {
        let i = choose|i: int| 0 <= i < init.len() && (#[trigger] init[i]).name == name;
        assert(init[0].name != name);
        assert(init.drop_first()[i - 1].name == name);
        assert(s.drop_first().drop_last() =~= init.drop_first());
        lemma_index_in_front(s.drop_first(), name);
    } else {
        assert(init[0].name == name);
    }
}

/// Putting an entry in its place counts it once more under its name, and
/// changes no other count.
pub proof fn lemma_insert_sorted_count(
    s: Seq<EntryView>,
    e: EntryView,
    order: NameOrder,
    name: Seq<char>,
)
    ensures
        count_named(insert_sorted(s, e, order), name) == count_named(s, name) + if e.name
            == name {
            1nat
        } else {
            0nat
        },
    decreases s.len(),
{
    if s.len() == 0 {
        assert(seq![e].drop_last() =~= s);
    } else if name_le(s.last(), e, order) {
        assert(s.push(e).drop_last() =~= s);
    } else {
        lemma_insert_sorted_count(s.drop_last(), e, order, name);
        let r = insert_sorted(s.drop_last(), e, order);
        assert(r.push(s.last()).drop_last() =~= r);
    }
}

/// Sorting changes no count.
pub proof fn lemma_sorted_count(s: Seq<EntryView>, order: NameOrder, name: Seq<char>)
    ensures
        count_named(sorted_by_name(s, order), name) == count_named(s, name),
    decreases s.len(),
{
    if s.len() > 0 {
        lemma_sorted_count(s.drop_last(), order, name);
        lemma_insert_sorted_count(sorted_by_name(s.drop_last(), order), s.last(), order, name);
    }
}

/// Two entries of one batch with one name leave one entry of that name in
/// the archive, the first of them: whatever the archive held under the
/// name before, and however many entries of the batch carry it.
pub proof fn lemma_one_entry_for_each_name_of_a_batch(
    existing: Seq<EntryView>,
    batch: Seq<EntryView>,
    order: NameOrder,
    name: Seq<char>,
)
    requires
        has_name(batch, name),
    ensures
        count_named(sorted_by_name(merged(existing, batch), order), name) == 1,
        0 <= index_of_name(batch, name) < batch.len(),
        sorted_by_name(merged(existing, batch), order).contains(
            batch[index_of_name(batch, name)],
        ),
{
    let kept = without_names(existing, batch);
    let firsts = first_of_each_name(batch);
    let all = merged(existing, batch);
    let first = batch[index_of_name(batch, name)];
    lemma_without_names_count(existing, batch, name);
    lemma_first_of_each_name(batch, name);
    lemma_count_joined(kept, firsts, name);
    lemma_sorted_count(all, order, name);
    let k = choose|k: int| 0 <= k < firsts.len() && firsts[k] == first;
    assert(all[kept.len() + k] == first);
    assert(all.contains(first));
    lemma_sorted_by_name_same_entries(all, order);
    vstd::seq_lib::to_multiset_contains(all, first);
    vstd::seq_lib::to_multiset_contains(sorted_by_name(all, order), first);
}

/// No two entries of `s` carry one name.
pub open spec fn names_unique(s: Seq<EntryView>) -> bool {
    forall|i: int, j: int| 0 <= i < j < s.len() ==> s[i].name != s[j].name
}

/// A name that the batch does not carry stays as often as it was.
pub proof fn lemma_without_names_keeps(s: Seq<EntryView>, batch: Seq<EntryView>, name: Seq<char>)
    requires
        !has_name(batch, name),
    ensures
        count_named(without_names(s, batch), name) == count_named(s, name),
    decreases s.len(),
{
    if s.len() > 0 {
        lemma_without_names_keeps(s.drop_last(), batch, name);
        if !has_name(batch, s.last().name) {
            let kept = without_names(s.drop_last(), batch);
            assert(kept.push(s.last()).drop_last() =~= kept);
        }
    }
}

/// Names are unique exactly where none is counted twice.
pub proof fn lemma_unique_and_count(s: Seq<EntryView>)
    ensures
        names_unique(s) <==> forall|name: Seq<char>| #[trigger] count_named(s, name) <= 1,
    decreases s.len(),
{
    if s.len() > 0 {
        let init = s.drop_last();
        let last = s.last();
        lemma_unique_and_count(init);
        lemma_count_and_has(init, last.name);
        if names_unique(s) {
            assert forall|i: int, j: int| 0 <= i < j < init.len() implies init[i].name
                != init[j].name by {
                assert(s[i].name != s[j].name);
            }
            if has_name(init, last.name) {
                let i = choose|i: int| 0 <= i < init.len() && (#[trigger] init[i]).name == last.name;
                assert(s[i].name != s[s.len() - 1].name);
            }
            assert forall|name: Seq<char>| #[trigger] count_named(s, name) <= 1 by {
                assert(count_named(init, name) <= 1);
            }
        }
        if forall|name: Seq<char>| #[trigger] count_named(s, name) <= 1 {
            assert forall|name: Seq<char>| #[trigger] count_named(init, name) <= 1 by {
                assert(count_named(s, name) <= 1);
            }
            assert(count_named(s, last.name) <= 1);
            assert forall|i: int, j: int| 0 <= i < j < s.len() implies s[i].name != s[j].name by {
                if j < s.len() - 1 {
                    assert(init[i].name != init[j].name);
                } else if s[i].name == s[j].name {
                    assert(init[i].name == last.name);
                }
            }
        }
    }
}

/// An archive whose names are unique has unique names after a batch has
/// been added to it, whatever names the batch carries and however often.
pub proof fn lemma_add_keeps_names_unique(
    existing: Seq<EntryView>,
    batch: Seq<EntryView>,
    order: NameOrder,
)
    requires
        names_unique(existing),
    ensures
        names_unique(sorted_by_name(merged(existing, batch), order)),
{
    let kept = without_names(existing, batch);
    let firsts = first_of_each_name(batch);
    let all = merged(existing, batch);
    let sorted = sorted_by_name(all, order);
    lemma_unique_and_count(existing);
    lemma_unique_and_count(sorted);
    assert forall|name: Seq<char>| #[trigger] count_named(sorted, name) <= 1 by {
        lemma_sorted_count(all, order, name);
        lemma_count_joined(kept, firsts, name);
        if has_name(batch, name) {
            lemma_without_names_count(existing, batch, name);
            lemma_first_of_each_name(batch, name);
        } else {
            lemma_without_names_keeps(existing, batch, name);
            lemma_first_has_names_of(batch, name);
            lemma_count_and_has(firsts, name);
            assert(count_named(existing, name) <= 1);
        }
    }
}

} // verus!
