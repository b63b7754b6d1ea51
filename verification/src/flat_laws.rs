//! What holds of the flat layout: a file that was written can be read, says
//! what was written, and is written again byte for byte.
use crate::endian::{le_u32_at, le_u32_bytes, lemma_le_u32_round_trip};
use crate::entries::{
    is_sorted, lemma_sorted_by_name_is_sorted, merged, name_le, NameOrder, sorted_by_name,
};
use crate::entry::EntryView;
use crate::error::ArchiveError;
use crate::flat::{
    all_stored, data_region, flat_image, flat_image_len, flat_record, flat_records,
    lemma_flat_record_len, lemma_flat_records_len, lemma_flat_step, parse_flat_record,
    parse_flat_records, parsed_flat, saved_flat,
};
use crate::names::{lemma_name_round_trip, NamePolicy};
use vstd::prelude::*;
use vstd::utf8::encode_utf8;

verus! {

/// No name holds a NUL character.
pub open spec fn names_without_nul(files: Seq<EntryView>) -> bool {
    forall|i: int, k: int|
        0 <= i < files.len() && 0 <= k < files[i].name.len() ==> (#[trigger] files[i].name[k])
            != '\0'
}

/// Every entry that holds bytes of its own holds as many as its
/// `packed_size` says.
pub open spec fn lengths_agree(files: Seq<EntryView>) -> bool {
    forall|i: int|
        0 <= i < files.len() ==> ((#[trigger] files[i]).data matches Some(bytes) ==> bytes.len()
            == files[i].packed_size)
}

/// An entry as a file gives it back: located at `offset`, without bytes of
/// its own, and otherwise unchanged.
pub open spec fn reread(e: EntryView, offset: u32) -> EntryView {
    EntryView { offset: offset as u64, data: None, ..e }
}

/// The entries as the file that they were saved to gives them back.
pub open spec fn reread_all(files: Seq<EntryView>, source: Seq<u8>) -> Seq<EntryView> {
    Seq::new(
        files.len(),
        |i: int| reread(files[i], data_region(files.take(i), source).len() as u32),
    )
}

/// A part of a part of `data` is a part of `data`.
proof fn lemma_piece(data: Seq<u8>, pos: int, whole: Seq<u8>, at: int, piece: Seq<u8>)
    requires
        0 <= pos,
        pos + whole.len() <= data.len(),
        data.subrange(pos, pos + whole.len() as int) == whole,
        0 <= at,
        at + piece.len() <= whole.len(),
        whole.subrange(at, at + piece.len() as int) == piece,
    ensures
        data.subrange(pos + at, pos + at + piece.len() as int) == piece,
{
    assert forall|j: int| 0 <= j < piece.len() implies data.subrange(
        pos + at,
        pos + at + piece.len() as int,
    )[j] == piece[j] by {
        assert(data.subrange(pos, pos + whole.len() as int)[at + j] == data[pos + at + j]);
        assert(whole.subrange(at, at + piece.len() as int)[j] == whole[at + j]);
    }
    assert(data.subrange(pos + at, pos + at + piece.len() as int) =~= piece);
}

/// Where the record of an entry stands in a buffer, reading a record there
/// gives the entry back.
pub proof fn lemma_read_back_record(data: Seq<u8>, pos: int, limit: int, e: EntryView, offset: u32)
    requires
        0 <= pos,
        pos + flat_record(e, offset).len() <= limit <= data.len(),
        data.subrange(pos, pos + flat_record(e, offset).len() as int) == flat_record(e, offset),
        encode_utf8(e.name).len() <= u32::MAX,
        forall|k: int| 0 <= k < e.name.len() ==> e.name[k] != '\0',
    ensures
        parse_flat_record(data, pos, limit, NamePolicy::Permissive) == Ok::<
            (EntryView, int),
            ArchiveError,
        >((reread(e, offset), pos + flat_record(e, offset).len() as int)),
{
    let rec = flat_record(e, offset);
    let name = encode_utf8(e.name);
    let l = name.len() as int;
    let flag = seq![
        if e.compressed {
            1u8
        } else {
            0u8
        },
    ];
    let len_field = le_u32_bytes(l as u32);
    let size_field = le_u32_bytes(e.size);
    let packed_field = le_u32_bytes(e.packed_size);
    let offset_field = le_u32_bytes(offset);
    assert(rec == len_field + name + flag + size_field + packed_field + offset_field);
    assert(rec.len() == l + 17);
    assert(rec.subrange(0, 4) =~= len_field);
    assert(rec.subrange(4, 4 + l) =~= name);
    assert(rec.subrange(5 + l, 9 + l) =~= size_field);
    assert(rec.subrange(9 + l, 13 + l) =~= packed_field);
    assert(rec.subrange(13 + l, 17 + l) =~= offset_field);
    lemma_piece(data, pos, rec, 0, len_field);
    lemma_piece(data, pos, rec, 4, name);
    lemma_piece(data, pos, rec, 5 + l, size_field);
    lemma_piece(data, pos, rec, 9 + l, packed_field);
    lemma_piece(data, pos, rec, 13 + l, offset_field);
    lemma_le_u32_round_trip(data, pos, l as u32);
    lemma_le_u32_round_trip(data, pos + 5 + l, e.size);
    lemma_le_u32_round_trip(data, pos + 9 + l, e.packed_size);
    lemma_le_u32_round_trip(data, pos + 13 + l, offset);
    lemma_name_round_trip(e.name);
    assert(data[pos + 4 + l] == rec[4 + l]) by {
        assert(data.subrange(pos, pos + rec.len() as int)[4 + l] == data[pos + 4 + l]);
    }
    assert(rec[4 + l] == flag[0]);
    let got = parse_flat_record(data, pos, limit, NamePolicy::Permissive);
    assert(got is Ok);
    assert(got.unwrap().0 == reread(e, offset));
}

/// The data and the records of the first `k` entries open the data and the
/// records of all.
pub proof fn lemma_flat_prefix(files: Seq<EntryView>, source: Seq<u8>, k: int)
    requires
        0 <= k <= files.len(),
    ensures
        data_region(files.take(k), source).len() <= data_region(files, source).len(),
        flat_records(files.take(k), source).len() <= flat_records(files, source).len(),
        data_region(files, source).subrange(0, data_region(files.take(k), source).len() as int)
            == data_region(files.take(k), source),
        flat_records(files, source).subrange(
            0,
            flat_records(files.take(k), source).len() as int,
        ) == flat_records(files.take(k), source),
    decreases files.len() - k,
{
    if k < files.len() {
        lemma_flat_step(files, source, k);
        lemma_flat_prefix(files, source, k + 1);
        let d = data_region(files, source);
        let dk = data_region(files.take(k), source);
        let dk1 = data_region(files.take(k + 1), source);
        assert(d.subrange(0, dk.len() as int) =~= d.subrange(0, dk1.len() as int).subrange(
            0,
            dk.len() as int,
        ));
        assert(dk1.subrange(0, dk.len() as int) =~= dk);
        let r = flat_records(files, source);
        let rk = flat_records(files.take(k), source);
        let rk1 = flat_records(files.take(k + 1), source);
        assert(r.subrange(0, rk.len() as int) =~= r.subrange(0, rk1.len() as int).subrange(
            0,
            rk.len() as int,
        ));
        assert(rk1.subrange(0, rk.len() as int) =~= rk);
    } else {
        assert(files.take(k) == files);
        assert(data_region(files, source).subrange(0, data_region(files, source).len() as int)
            =~= data_region(files, source));
        assert(flat_records(files, source).subrange(
            0,
            flat_records(files, source).len() as int,
        ) =~= flat_records(files, source));
    }
}

/// Where entry `k` lies in the file: its stored bytes in the data, its
/// record in the records.
pub proof fn lemma_flat_place(files: Seq<EntryView>, source: Seq<u8>, k: int)
    requires
        0 <= k < files.len(),
    ensures
        ({
            let d = data_region(files, source);
            let at = data_region(files.take(k), source).len() as int;
            let bytes = files[k].stored(source).unwrap();
            at + bytes.len() <= d.len() && d.subrange(at, at + bytes.len() as int) == bytes
        }),
        ({
            let r = flat_records(files, source);
            let at = flat_records(files.take(k), source).len() as int;
            let rec = flat_record(files[k], data_region(files.take(k), source).len() as u32);
            at + rec.len() <= r.len() && r.subrange(at, at + rec.len() as int) == rec
        }),
{
    lemma_flat_step(files, source, k);
    lemma_flat_prefix(files, source, k + 1);
    let d = data_region(files, source);
    let dk = data_region(files.take(k), source);
    let dk1 = data_region(files.take(k + 1), source);
    let bytes = files[k].stored(source).unwrap();
    assert(d.subrange(dk.len() as int, dk.len() as int + bytes.len() as int) =~= d.subrange(
        0,
        dk1.len() as int,
    ).subrange(dk.len() as int, dk1.len() as int));
    assert(dk1.subrange(dk.len() as int, dk1.len() as int) =~= bytes);
    let r = flat_records(files, source);
    let rk = flat_records(files.take(k), source);
    let rk1 = flat_records(files.take(k + 1), source);
    let rec = flat_record(files[k], dk.len() as u32);
    assert(r.subrange(rk.len() as int, rk.len() as int + rec.len() as int) =~= r.subrange(
        0,
        rk1.len() as int,
    ).subrange(rk.len() as int, rk1.len() as int));
    assert(rk1.subrange(rk.len() as int, rk1.len() as int) =~= rec);
}

/// Where the records of some entries stand in a buffer, reading the records
/// from entry `k` on gives the entries from `k` on.
proof fn lemma_read_back_from(
    image: Seq<u8>,
    base: int,
    limit: int,
    files: Seq<EntryView>,
    source: Seq<u8>,
    k: int,
)
    requires
        0 <= k <= files.len(),
        0 <= base,
        base + flat_records(files, source).len() <= limit <= image.len(),
        image.subrange(base, base + flat_records(files, source).len() as int) == flat_records(
            files,
            source,
        ),
        flat_records(files, source).len() <= u32::MAX,
        names_without_nul(files),
    ensures
        parse_flat_records(
            image,
            base + flat_records(files.take(k), source).len() as int,
            limit,
            (files.len() - k) as nat,
            NamePolicy::Permissive,
        ) == Ok::<Seq<EntryView>, ArchiveError>(
            reread_all(files, source).subrange(k, files.len() as int),
        ),
    decreases files.len() - k,
{
    let r = flat_records(files, source);
    let n = files.len() as int;
    let back = reread_all(files, source);
    if k == n {
        assert(back.subrange(k, n) =~= Seq::<EntryView>::empty());
    } else {
        let e = files[k];
        let offset = data_region(files.take(k), source).len() as u32;
        let rec = flat_record(e, offset);
        let rk = flat_records(files.take(k), source);
        let pos = base + rk.len() as int;
        lemma_flat_place(files, source, k);
        lemma_flat_step(files, source, k);
        lemma_flat_record_len(e, offset);
        lemma_piece(image, base, r, rk.len() as int, rec);
        assert forall|j: int| 0 <= j < e.name.len() implies e.name[j] != '\0' by {
            assert(files[k].name[j] != '\0');
        }
        lemma_read_back_record(image, pos, limit, e, offset);
        lemma_read_back_from(image, base, limit, files, source, k + 1);
        assert(back[k] == reread(e, offset));
        assert(seq![back[k]] + back.subrange(k + 1, n) =~= back.subrange(k, n));
    }
}

/// A file that was saved can be opened, and lists the entries that were
/// saved: each under its name, with its sizes and its flag, at the offset
/// at which its stored bytes were written. This holds where no name has a
/// NUL character in it and the stored bytes take at least four bytes
/// together, which reading asks of the place of the tree.
pub proof fn lemma_flat_open_after_save(files: Seq<EntryView>, source: Seq<u8>)
    requires
        saved_flat(files, source) is Ok,
        names_without_nul(files),
        data_region(files, source).len() >= 4,
    ensures
        parsed_flat(saved_flat(files, source).unwrap(), NamePolicy::Permissive) == Ok::<
            Seq<EntryView>,
            ArchiveError,
        >(reread_all(files, source)),
{
    let image = flat_image(files, source);
    let d = data_region(files, source);
    let r = flat_records(files, source);
    let n = files.len();
    let total = flat_image_len(files, source);
    lemma_footer_of_saved(files, source);
    lemma_flat_records_len(files, source);
    let count = le_u32_bytes(n as u32);
    assert(image.subrange(d.len() as int, d.len() as int + 4) =~= count);
    lemma_le_u32_round_trip(image, d.len() as int, n as u32);
    assert(files.take(0) =~= Seq::<EntryView>::empty());
    assert(image.subrange(d.len() as int + 4, d.len() as int + 4 + r.len() as int) =~= r);
    lemma_read_back_from(image, d.len() as int + 4, total - 8, files, source, 0);
    assert(reread_all(files, source).subrange(0, n as int) =~= reread_all(files, source));
}

/// The footer of a saved file gives the length of the file as its second
/// number, and its first number leads to the place where the count of the
/// entries was written: right behind the stored bytes.
pub proof fn lemma_footer_of_saved(files: Seq<EntryView>, source: Seq<u8>)
    requires
        saved_flat(files, source) is Ok,
    ensures
        ({
            let image = saved_flat(files, source).unwrap();
            let tree_size = le_u32_at(image, image.len() - 8);
            let dat_size = le_u32_at(image, image.len() - 4);
            &&& image.len() == flat_image_len(files, source)
            &&& dat_size == image.len()
            &&& tree_size == 4 + flat_records(files, source).len()
            &&& dat_size - tree_size - 8 == data_region(files, source).len()
            &&& image.subrange(
                dat_size - tree_size - 8,
                dat_size - tree_size - 4,
            ) == le_u32_bytes(files.len() as u32)
        }),
{
    let image = flat_image(files, source);
    let d = data_region(files, source);
    let r = flat_records(files, source);
    let total = flat_image_len(files, source);
    let f1 = le_u32_bytes((4 + r.len()) as u32);
    let f2 = le_u32_bytes(total as u32);
    assert(image.len() == total);
    assert(image.subrange(total - 8, total - 4) =~= f1);
    assert(image.subrange(total - 4, total) =~= f2);
    lemma_le_u32_round_trip(image, total - 8, (4 + r.len()) as u32);
    lemma_le_u32_round_trip(image, total - 4, total as u32);
    assert(image.subrange(d.len() as int, d.len() as int + 4) =~= le_u32_bytes(
        files.len() as u32,
    ));
}

/// Every entry of a saved file lies inside the file, and its stored bytes
/// there are the bytes that were saved for it.
pub proof fn lemma_flat_content_kept(files: Seq<EntryView>, source: Seq<u8>, i: int)
    requires
        saved_flat(files, source) is Ok,
        lengths_agree(files),
        0 <= i < files.len(),
    ensures
        ({
            let image = saved_flat(files, source).unwrap();
            let back = reread_all(files, source)[i];
            &&& back.offset + back.packed_size <= image.len()
            &&& back.stored(image) == files[i].stored(source)
        }),
{
    let image = flat_image(files, source);
    let d = data_region(files, source);
    let at = data_region(files.take(i), source).len() as int;
    let bytes = files[i].stored(source).unwrap();
    lemma_flat_place(files, source, i);
    assert(files[i].stored(source) is Some);
    assert(bytes.len() == files[i].packed_size);
    assert(image.subrange(at, at + bytes.len() as int) =~= d.subrange(
        at,
        at + bytes.len() as int,
    ));
}

/// The entries of a saved file, read back, make the same data and the same
/// records as the entries that were saved.
proof fn lemma_same_regions(files: Seq<EntryView>, source: Seq<u8>, k: int)
    requires
        saved_flat(files, source) is Ok,
        lengths_agree(files),
        0 <= k <= files.len(),
    ensures
        all_stored(reread_all(files, source).take(k), flat_image(files, source)),
        data_region(reread_all(files, source).take(k), flat_image(files, source)) == data_region(
            files.take(k),
            source,
        ),
        flat_records(reread_all(files, source).take(k), flat_image(files, source))
            == flat_records(files.take(k), source),
    decreases k,
{
    let image = flat_image(files, source);
    let back = reread_all(files, source);
    if k == 0 {
        assert(back.take(0) =~= Seq::<EntryView>::empty());
        assert(files.take(0) =~= Seq::<EntryView>::empty());
    } else {
        lemma_same_regions(files, source, k - 1);
        lemma_flat_content_kept(files, source, k - 1);
        lemma_flat_step(files, source, k - 1);
        lemma_flat_step(back, image, k - 1);
        assert(back.take(k - 1).take(k - 1) =~= back.take(k - 1));
        assert forall|j: int| 0 <= j < k implies (#[trigger] back.take(k)[j]).stored(image)
            is Some by {
            if j < k - 1 {
                assert(back.take(k - 1)[j] == back.take(k)[j]);
            }
        }
        let offset = data_region(files.take(k - 1), source).len() as u32;
        assert(flat_record(back[k - 1], offset) == flat_record(files[k - 1], offset));
    }
}

/// A file that was saved and opened is saved again byte for byte.
pub proof fn lemma_flat_resave(files: Seq<EntryView>, source: Seq<u8>)
    requires
        saved_flat(files, source) is Ok,
        lengths_agree(files),
    ensures
        saved_flat(reread_all(files, source), saved_flat(files, source).unwrap()) == saved_flat(
            files,
            source,
        ),
{
    let image = flat_image(files, source);
    let back = reread_all(files, source);
    lemma_same_regions(files, source, files.len() as int);
    assert(back.take(files.len() as int) =~= back);
    assert(files.take(files.len() as int) =~= files);
}

/// Entries that were in order when they were saved are in order when the
/// file is opened: saving and opening changes neither names nor places.
pub proof fn lemma_flat_order_kept(files: Seq<EntryView>, source: Seq<u8>, order: NameOrder)
    requires
        is_sorted(files, order),
    ensures
        is_sorted(reread_all(files, source), order),
{
    let back = reread_all(files, source);
    assert forall|i: int, j: int| 0 <= i < j < back.len() implies name_le(
        back[i],
        back[j],
        order,
    ) by {
        assert(name_le(files[i], files[j], order));
    }
}

/// Adding to an archive and saving it gives a file whose entries are in
/// order by name.
pub proof fn lemma_flat_added_is_sorted(
    existing: Seq<EntryView>,
    batch: Seq<EntryView>,
    source: Seq<u8>,
    order: NameOrder,
)
    ensures
        is_sorted(sorted_by_name(merged(existing, batch), order), order),
        is_sorted(reread_all(sorted_by_name(merged(existing, batch), order), source), order),
{
    lemma_sorted_by_name_is_sorted(merged(existing, batch), order);
    lemma_flat_order_kept(sorted_by_name(merged(existing, batch), order), source, order);
}

} // verus!
