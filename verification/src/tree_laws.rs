//! What holds of the directory layout: a file that was written can be read,
//! says what was written, and is written again byte for byte.
use crate::endian::{be_u32_at, be_u32_bytes, lemma_be_u32_round_trip};
use crate::entries::{first_of_each_name, without_names};
use crate::entry::EntryView;
use crate::error::ArchiveError;
use crate::flat::data_region;
use crate::flat_laws::reread;
use crate::names::{lemma_name_round_trip, NamePolicy};
use crate::tree_layout::{
    after_add, ATTR_PACKED, ATTR_STORED, dir_header, dir_index, dir_names, dir_names_fit,
    dir_record, dir_records, dir_records_len, directory_of, dirs_without, DirView, file_header,
    file_record, file_records, file_records_len, full_name, in_directory, last_backslash,
    lemma_dir_records_len, lemma_dir_step, lemma_file_step, meta_len, name_field, parse_dir,
    parse_dirs, parse_file, parse_files, parse_name, parse_names, parsed_tree, placed, placed_all,
    root_name, saved_tree, stored_name, tree_data, tree_fits, tree_image,
};
use vstd::prelude::*;
use vstd::utf8::encode_utf8;

verus! {

/// The text holds no NUL character.
pub open spec fn without_nul(text: Seq<char>) -> bool {
    forall|k: int| 0 <= k < text.len() ==> text[k] != '\0'
}

/// The entry comes back from a file with the lengths and the flag that it
/// went in with: stored, its two lengths are the same; packed, its packed
/// length is not zero, which the layout reads as "the same".
pub open spec fn lengths_survive(e: EntryView) -> bool {
    if e.compressed {
        e.packed_size != 0 || e.size == 0
    } else {
        e.packed_size == e.size
    }
}

/// What a directory must be like for a file to give it back as it was: no
/// NUL in any name, every file of a directory other than the root named
/// with the path of the directory in front, and lengths that survive.
pub open spec fn dir_survives(d: DirView) -> bool {
    &&& without_nul(d.name)
    &&& forall|j: int|
        0 <= j < d.files.len() ==> {
            &&& without_nul((#[trigger] d.files[j]).name)
            &&& d.name != root_name() ==> in_directory(d.files[j].name, d.name)
            &&& lengths_survive(d.files[j])
        }
}

/// Every directory is as `dir_survives` asks.
pub open spec fn tree_survives(dirs: Seq<DirView>) -> bool {
    forall|i: int| 0 <= i < dirs.len() ==> dir_survives(#[trigger] dirs[i])
}

/// The files of a directory as a file gives them back, where the stored
/// bytes of the first start at `base`.
pub open spec fn reread_files(files: Seq<EntryView>, source: Seq<u8>, base: int) -> Seq<
    EntryView,
> {
    Seq::new(
        files.len(),
        |j: int| reread(files[j], (base + data_region(files.take(j), source).len()) as u32),
    )
}

/// The directories as a file gives them back, where the stored bytes of
/// the first file start at `base`.
pub open spec fn reread_dirs_at(dirs: Seq<DirView>, source: Seq<u8>, base: int) -> Seq<DirView> {
    Seq::new(
        dirs.len(),
        |i: int|
            DirView {
                name: dirs[i].name,
                files: reread_files(
                    dirs[i].files,
                    source,
                    base + tree_data(dirs.take(i), source).len(),
                ),
            },
    )
}

/// The directories as the file that they were saved to gives them back.
pub open spec fn reread_dirs(dirs: Seq<DirView>, source: Seq<u8>) -> Seq<DirView> {
    reread_dirs_at(dirs, source, meta_len(dirs))
}

/// The names of the directories.
pub open spec fn names_of(dirs: Seq<DirView>) -> Seq<Seq<char>> {
    Seq::new(dirs.len(), |i: int| dirs[i].name)
}

/// A part of a part of `data` is a part of `data`.
proof fn lemma_piece(data: Seq<u8>, pos: int, whole: Seq<u8>, at: int, piece: Seq<u8>)
    requires
        0 <= pos,
        pos + whole.len() <= data.len(),
        data.subrange(pos, pos + whole.len() as int) == whole,
        0 <= at,
        at + piece.len() <= whole.len(),
        whole.subrange(at, at + piece.len() as int) == piece,
    ensures
        data.subrange(pos + at, pos + at + piece.len() as int) == piece,
{
    assert forall|j: int| 0 <= j < piece.len() implies data.subrange(
        pos + at,
        pos + at + piece.len() as int,
    )[j] == piece[j] by {
        assert(data.subrange(pos, pos + whole.len() as int)[at + j] == data[pos + at + j]);
        assert(whole.subrange(at, at + piece.len() as int)[j] == whole[at + j]);
    }
    assert(data.subrange(pos + at, pos + at + piece.len() as int) =~= piece);
}

/// Where a name stands in a buffer with its length byte, reading a name
/// there gives it back.
pub proof fn lemma_read_back_name(data: Seq<u8>, pos: int, name: Seq<char>)
    requires
        0 <= pos,
        encode_utf8(name).len() <= 255,
        pos + 1 + encode_utf8(name).len() <= data.len(),
        data.subrange(pos, pos + 1 + encode_utf8(name).len() as int) == name_field(name),
        without_nul(name),
    ensures
        parse_name(data, pos, NamePolicy::Permissive) == Ok::<(Seq<char>, int), ArchiveError>(
            (name, pos + 1 + encode_utf8(name).len() as int),
        ),
{
    let bytes = encode_utf8(name);
    let l = bytes.len() as int;
    let field = name_field(name);
    assert(data[pos] == field[0]) by {
        assert(data.subrange(pos, pos + 1 + l)[0] == data[pos]);
    }
    assert(field.subrange(1, 1 + l) =~= bytes);
    lemma_piece(data, pos, field, 1, bytes);
    lemma_name_round_trip(name);
}

/// The name of a file that lies in its directory is the path of the
/// directory joined to the name that its record gives it.
pub proof fn lemma_full_name(name: Seq<char>, dir: Seq<char>)
    requires
        dir != root_name() ==> in_directory(name, dir),
    ensures
        full_name(dir, stored_name(name, dir)) == name,
{
    if dir != root_name() {
        assert(dir + seq!['\\'] + name.skip(dir.len() as int + 1) =~= name) by {
            assert(name.take(dir.len() as int) == dir);
        }
    }
}

/// The name that a record gives a file holds no NUL where the name of the
/// file holds none.
proof fn lemma_stored_name_without_nul(name: Seq<char>, dir: Seq<char>)
    requires
        without_nul(name),
    ensures
        without_nul(stored_name(name, dir)),
{
    let s = stored_name(name, dir);
    assert forall|k: int| 0 <= k < s.len() implies s[k] != '\0' by {
        if dir != root_name() && in_directory(name, dir) {
            assert(s[k] == name[k + dir.len() + 1]);
        }
    }
}

/// Where the record of a file stands in a buffer, reading a record there
/// gives the file back.
pub proof fn lemma_read_back_file(
    data: Seq<u8>,
    pos: int,
    e: EntryView,
    dir: Seq<char>,
    offset: u32,
)
    requires
        0 <= pos,
        encode_utf8(stored_name(e.name, dir)).len() <= 255,
        pos + file_record(e, dir, offset).len() <= data.len(),
        data.subrange(pos, pos + file_record(e, dir, offset).len() as int) == file_record(
            e,
            dir,
            offset,
        ),
        without_nul(e.name),
        dir != root_name() ==> in_directory(e.name, dir),
        lengths_survive(e),
    ensures
        parse_file(data, pos, dir, NamePolicy::Permissive) == Ok::<(EntryView, int), ArchiveError>(
            (reread(e, offset), pos + file_record(e, dir, offset).len() as int),
        ),
        file_record(e, dir, offset).len() == 17 + encode_utf8(stored_name(e.name, dir)).len(),
{
    let rec = file_record(e, dir, offset);
    let short = stored_name(e.name, dir);
    let field = name_field(short);
    let l = field.len() as int;
    let attributes: u32 = if e.compressed {
        ATTR_PACKED
    } else {
        ATTR_STORED
    };
    let packed: u32 = if e.compressed {
        e.packed_size
    } else {
        0
    };
    let attr_field = be_u32_bytes(attributes);
    let offset_field = be_u32_bytes(offset);
    let size_field = be_u32_bytes(e.size);
    let packed_field = be_u32_bytes(packed);
    assert(rec == field + attr_field + offset_field + size_field + packed_field);
    assert(rec.subrange(0, l) =~= field);
    assert(rec.subrange(l, l + 4) =~= attr_field);
    assert(rec.subrange(l + 4, l + 8) =~= offset_field);
    assert(rec.subrange(l + 8, l + 12) =~= size_field);
    assert(rec.subrange(l + 12, l + 16) =~= packed_field);
    lemma_piece(data, pos, rec, 0, field);
    lemma_piece(data, pos, rec, l, attr_field);
    lemma_piece(data, pos, rec, l + 4, offset_field);
    lemma_piece(data, pos, rec, l + 8, size_field);
    lemma_piece(data, pos, rec, l + 12, packed_field);
    lemma_stored_name_without_nul(e.name, dir);
    lemma_read_back_name(data, pos, short);
    lemma_be_u32_round_trip(data, pos + l, attributes);
    lemma_be_u32_round_trip(data, pos + l + 4, offset);
    lemma_be_u32_round_trip(data, pos + l + 8, e.size);
    lemma_be_u32_round_trip(data, pos + l + 12, packed);
    lemma_full_name(e.name, dir);
}

/// The records of the first `k` files of a directory open the records of
/// all, and the record of file `k` follows them.
pub proof fn lemma_file_place(
    files: Seq<EntryView>,
    dir: Seq<char>,
    source: Seq<u8>,
    base: int,
    k: int,
)
    requires
        0 <= k < files.len(),
    ensures
        ({
            let r = file_records(files, dir, source, base);
            let at = file_records(files.take(k), dir, source, base).len() as int;
            let rec = file_record(
                files[k],
                dir,
                (base + data_region(files.take(k), source).len()) as u32,
            );
            &&& at + rec.len() <= r.len()
            &&& r.subrange(at, at + rec.len() as int) == rec
            &&& file_records(files.take(k + 1), dir, source, base).len() == at + rec.len()
        }),
    decreases files.len() - k,
{
    let r = file_records(files, dir, source, base);
    let rk = file_records(files.take(k), dir, source, base);
    let rk1 = file_records(files.take(k + 1), dir, source, base);
    let rec = file_record(files[k], dir, (base + data_region(files.take(k), source).len()) as u32);
    lemma_file_step(files, dir, source, base, k);
    assert(rk1.subrange(rk.len() as int, rk1.len() as int) =~= rec);
    if k + 1 < files.len() {
        lemma_file_place(files, dir, source, base, k + 1);
        lemma_file_prefix(files, dir, source, base, k + 1);
        assert(r.subrange(rk.len() as int, rk1.len() as int) =~= r.subrange(
            0,
            rk1.len() as int,
        ).subrange(rk.len() as int, rk1.len() as int));
    } else {
        assert(files.take(k + 1) =~= files);
    }
}

/// The records of the first `k` files of a directory open the records of
/// all.
proof fn lemma_file_prefix(
    files: Seq<EntryView>,
    dir: Seq<char>,
    source: Seq<u8>,
    base: int,
    k: int,
)
    requires
        0 <= k <= files.len(),
    ensures
        file_records(files.take(k), dir, source, base).len() <= file_records(
            files,
            dir,
            source,
            base,
        ).len(),
        file_records(files, dir, source, base).subrange(
            0,
            file_records(files.take(k), dir, source, base).len() as int,
        ) == file_records(files.take(k), dir, source, base),
    decreases files.len() - k,
{
    let r = file_records(files, dir, source, base);
    let rk = file_records(files.take(k), dir, source, base);
    if k < files.len() {
        lemma_file_step(files, dir, source, base, k);
        lemma_file_prefix(files, dir, source, base, k + 1);
        let rk1 = file_records(files.take(k + 1), dir, source, base);
        assert(r.subrange(0, rk.len() as int) =~= r.subrange(0, rk1.len() as int).subrange(
            0,
            rk.len() as int,
        ));
        assert(rk1.subrange(0, rk.len() as int) =~= rk);
    } else {
        assert(files.take(k) =~= files);
        assert(r.subrange(0, r.len() as int) =~= r);
    }
}

/// Where the records of the files of a directory stand in a buffer,
/// reading the records from file `k` on gives the files from `k` on.
proof fn lemma_read_back_files(
    data: Seq<u8>,
    start: int,
    d: DirView,
    source: Seq<u8>,
    base: int,
    k: int,
)
    requires
        0 <= k <= d.files.len(),
        0 <= start,
        0 <= base,
        base + data_region(d.files, source).len() <= u32::MAX,
        start + file_records(d.files, d.name, source, base).len() <= data.len(),
        data.subrange(start, start + file_records(d.files, d.name, source, base).len() as int)
            == file_records(d.files, d.name, source, base),
        dir_names_fit(d),
        dir_survives(d),
    ensures
        parse_files(
            data,
            start + file_records(d.files.take(k), d.name, source, base).len() as int,
            (d.files.len() - k) as nat,
            d.name,
            NamePolicy::Permissive,
        ) == Ok::<(Seq<EntryView>, int), ArchiveError>(
            (
                reread_files(d.files, source, base).subrange(k, d.files.len() as int),
                start + file_records(d.files, d.name, source, base).len() as int,
            ),
        ),
    decreases d.files.len() - k,
{
    let files = d.files;
    let n = files.len() as int;
    let r = file_records(files, d.name, source, base);
    let back = reread_files(files, source, base);
    if k == n {
        assert(files.take(k) =~= files);
        assert(back.subrange(k, n) =~= Seq::<EntryView>::empty());
    } else {
        let e = files[k];
        let offset = (base + data_region(files.take(k), source).len()) as u32;
        let rec = file_record(e, d.name, offset);
        let rk = file_records(files.take(k), d.name, source, base);
        let pos = start + rk.len() as int;
        lemma_file_place(files, d.name, source, base, k);
        lemma_piece(data, start, r, rk.len() as int, rec);
        assert(encode_utf8(stored_name(e.name, d.name)).len() <= 255);
        assert(without_nul(e.name) && lengths_survive(e) && (d.name != root_name()
            ==> in_directory(e.name, d.name)));
        lemma_read_back_file(data, pos, e, d.name, offset);
        lemma_read_back_files(data, start, d, source, base, k + 1);
        assert(back[k] == reread(e, offset));
        assert(seq![back[k]] + back.subrange(k + 1, n) =~= back.subrange(k, n));
    }
}

/// Where the record of a directory stands in a buffer, reading a record
/// there gives the directory back.
proof fn lemma_read_back_dir(data: Seq<u8>, pos: int, d: DirView, source: Seq<u8>, base: int)
    requires
        0 <= pos,
        0 <= base,
        d.files.len() <= u32::MAX,
        base + data_region(d.files, source).len() <= u32::MAX,
        pos + dir_record(d, source, base).len() <= data.len(),
        data.subrange(pos, pos + dir_record(d, source, base).len() as int) == dir_record(
            d,
            source,
            base,
        ),
        dir_names_fit(d),
        dir_survives(d),
    ensures
        parse_dir(data, pos, d.name, NamePolicy::Permissive) == Ok::<(DirView, int), ArchiveError>(
            (
                DirView { name: d.name, files: reread_files(d.files, source, base) },
                pos + dir_record(d, source, base).len() as int,
            ),
        ),
{
    let rec = dir_record(d, source, base);
    let head = dir_header(d.files.len() as u32);
    let body = file_records(d.files, d.name, source, base);
    let count = be_u32_bytes(d.files.len() as u32);
    assert(head.len() == 16);
    assert(rec.subrange(0, 4) =~= count);
    assert(rec.subrange(16, 16 + body.len() as int) =~= body);
    lemma_piece(data, pos, rec, 0, count);
    lemma_piece(data, pos, rec, 16, body);
    lemma_be_u32_round_trip(data, pos, d.files.len() as u32);
    assert(d.files.take(0) =~= Seq::<EntryView>::empty());
    lemma_read_back_files(data, pos + 16, d, source, base, 0);
    assert(reread_files(d.files, source, base).subrange(0, d.files.len() as int)
        =~= reread_files(d.files, source, base));
}

/// The names of the first `k` directories open the names of all, and the
/// name of directory `k` follows them.
proof fn lemma_name_place(dirs: Seq<DirView>, k: int)
    requires
        0 <= k < dirs.len(),
    ensures
        ({
            let all = dir_names(dirs);
            let at = dir_names(dirs.take(k)).len() as int;
            let field = name_field(dirs[k].name);
            &&& at + field.len() <= all.len()
            &&& all.subrange(at, at + field.len() as int) == field
            &&& dir_names(dirs.take(k + 1)).len() == at + field.len()
        }),
{
    let all = dir_names(dirs);
    let nk = dir_names(dirs.take(k));
    let nk1 = dir_names(dirs.take(k + 1));
    let field = name_field(dirs[k].name);
    lemma_dir_step(dirs, Seq::empty(), 0, k);
    lemma_name_prefix(dirs, k + 1);
    assert(nk1.subrange(nk.len() as int, nk1.len() as int) =~= field);
    assert(all.subrange(nk.len() as int, nk1.len() as int) =~= all.subrange(
        0,
        nk1.len() as int,
    ).subrange(nk.len() as int, nk1.len() as int));
}

/// The names of the first `k` directories open the names of all.
proof fn lemma_name_prefix(dirs: Seq<DirView>, k: int)
    requires
        0 <= k <= dirs.len(),
    ensures
        dir_names(dirs.take(k)).len() <= dir_names(dirs).len(),
        dir_names(dirs).subrange(0, dir_names(dirs.take(k)).len() as int) == dir_names(
            dirs.take(k),
        ),
    decreases dirs.len() - k,
{
    let all = dir_names(dirs);
    let nk = dir_names(dirs.take(k));
    if k < dirs.len() {
        lemma_dir_step(dirs, Seq::empty(), 0, k);
        lemma_name_prefix(dirs, k + 1);
        let nk1 = dir_names(dirs.take(k + 1));
        assert(all.subrange(0, nk.len() as int) =~= all.subrange(0, nk1.len() as int).subrange(
            0,
            nk.len() as int,
        ));
        assert(nk1.subrange(0, nk.len() as int) =~= nk);
    } else {
        assert(dirs.take(k) =~= dirs);
        assert(all.subrange(0, all.len() as int) =~= all);
    }
}

/// Where the names of the directories stand in a buffer, reading the names
/// from directory `k` on gives the names from `k` on.
proof fn lemma_read_back_names(data: Seq<u8>, start: int, dirs: Seq<DirView>, k: int)
    requires
        0 <= k <= dirs.len(),
        0 <= start,
        start + dir_names(dirs).len() <= data.len(),
        data.subrange(start, start + dir_names(dirs).len() as int) == dir_names(dirs),
        forall|i: int|
            0 <= i < dirs.len() ==> encode_utf8((#[trigger] dirs[i]).name).len() <= 255
                && without_nul(dirs[i].name),
    ensures
        parse_names(
            data,
            start + dir_names(dirs.take(k)).len() as int,
            (dirs.len() - k) as nat,
            NamePolicy::Permissive,
        ) == Ok::<(Seq<Seq<char>>, int), ArchiveError>(
            (
                names_of(dirs).subrange(k, dirs.len() as int),
                start + dir_names(dirs).len() as int,
            ),
        ),
    decreases dirs.len() - k,
{
    let n = dirs.len() as int;
    let all = dir_names(dirs);
    let names = names_of(dirs);
    if k == n {
        assert(dirs.take(k) =~= dirs);
        assert(names.subrange(k, n) =~= Seq::<Seq<char>>::empty());
    } else {
        let name = dirs[k].name;
        let field = name_field(name);
        let nk = dir_names(dirs.take(k));
        lemma_name_place(dirs, k);
        lemma_piece(data, start, all, nk.len() as int, field);
        assert(encode_utf8(name).len() <= 255 && without_nul(name));
        lemma_read_back_name(data, start + nk.len() as int, name);
        lemma_read_back_names(data, start, dirs, k + 1);
        assert(names[k] == name);
        assert(seq![names[k]] + names.subrange(k + 1, n) =~= names.subrange(k, n));
    }
}

/// The records of the first `k` directories open the records of all, and
/// the record of directory `k` follows them.
proof fn lemma_dir_place(dirs: Seq<DirView>, source: Seq<u8>, base: int, k: int)
    requires
        0 <= k < dirs.len(),
    ensures
        ({
            let all = dir_records(dirs, source, base);
            let at = dir_records(dirs.take(k), source, base).len() as int;
            let rec = dir_record(dirs[k], source, base + tree_data(dirs.take(k), source).len());
            &&& at + rec.len() <= all.len()
            &&& all.subrange(at, at + rec.len() as int) == rec
            &&& dir_records(dirs.take(k + 1), source, base).len() == at + rec.len()
        }),
{
    let all = dir_records(dirs, source, base);
    let rk = dir_records(dirs.take(k), source, base);
    let rk1 = dir_records(dirs.take(k + 1), source, base);
    let rec = dir_record(dirs[k], source, base + tree_data(dirs.take(k), source).len());
    lemma_dir_step(dirs, source, base, k);
    lemma_dir_prefix(dirs, source, base, k + 1);
    assert(rk1.subrange(rk.len() as int, rk1.len() as int) =~= rec);
    assert(all.subrange(rk.len() as int, rk1.len() as int) =~= all.subrange(
        0,
        rk1.len() as int,
    ).subrange(rk.len() as int, rk1.len() as int));
}

/// The records of the first `k` directories open the records of all.
proof fn lemma_dir_prefix(dirs: Seq<DirView>, source: Seq<u8>, base: int, k: int)
    requires
        0 <= k <= dirs.len(),
    ensures
        dir_records(dirs.take(k), source, base).len() <= dir_records(dirs, source, base).len(),
        dir_records(dirs, source, base).subrange(
            0,
            dir_records(dirs.take(k), source, base).len() as int,
        ) == dir_records(dirs.take(k), source, base),
    decreases dirs.len() - k,
{
    let all = dir_records(dirs, source, base);
    let rk = dir_records(dirs.take(k), source, base);
    if k < dirs.len() {
        lemma_dir_step(dirs, source, base, k);
        lemma_dir_prefix(dirs, source, base, k + 1);
        let rk1 = dir_records(dirs.take(k + 1), source, base);
        assert(all.subrange(0, rk.len() as int) =~= all.subrange(0, rk1.len() as int).subrange(
            0,
            rk.len() as int,
        ));
        assert(rk1.subrange(0, rk.len() as int) =~= rk);
    } else {
        assert(dirs.take(k) =~= dirs);
        assert(all.subrange(0, all.len() as int) =~= all);
    }
}

/// Every directory can be written and read back, where the stored bytes of
/// the first file start at `base`: its names fit, it is as `dir_survives`
/// asks, and its files and their offsets can be counted in 32 bits.
#[verifier::opaque]
pub open spec fn dirs_ready(dirs: Seq<DirView>, source: Seq<u8>, base: int) -> bool {
    forall|i: int|
        0 <= i < dirs.len() ==> {
            &&& dir_names_fit(#[trigger] dirs[i])
            &&& dir_survives(dirs[i])
            &&& dirs[i].files.len() <= u32::MAX
            &&& base + tree_data(dirs.take(i), source).len() + data_region(
                dirs[i].files,
                source,
            ).len() <= u32::MAX
        }
}

/// Where the records of the directories stand in a buffer, reading the
/// records from directory `k` on gives the directories from `k` on.
proof fn lemma_read_back_dirs(
    data: Seq<u8>,
    start: int,
    dirs: Seq<DirView>,
    source: Seq<u8>,
    base: int,
    k: int,
)
    requires
        0 <= k <= dirs.len(),
        0 <= start,
        0 <= base,
        start + dir_records(dirs, source, base).len() <= data.len(),
        data.subrange(start, start + dir_records(dirs, source, base).len() as int) == dir_records(
            dirs,
            source,
            base,
        ),
        dirs_ready(dirs, source, base),
    ensures
        parse_dirs(
            data,
            start + dir_records(dirs.take(k), source, base).len() as int,
            names_of(dirs),
            k,
            NamePolicy::Permissive,
        ) == Ok::<Seq<DirView>, ArchiveError>(
            reread_dirs_at(dirs, source, base).subrange(k, dirs.len() as int),
        ),
    decreases dirs.len() - k,
{
    let n = dirs.len() as int;
    let all = dir_records(dirs, source, base);
    let back = reread_dirs_at(dirs, source, base);
    if k == n {
        assert(back.subrange(k, n) =~= Seq::<DirView>::empty());
    } else {
        let d = dirs[k];
        let at = base + tree_data(dirs.take(k), source).len();
        let rec = dir_record(d, source, at);
        let rk = dir_records(dirs.take(k), source, base);
        lemma_dir_place(dirs, source, base, k);
        lemma_piece(data, start, all, rk.len() as int, rec);
        assert(dir_names_fit(d) && dir_survives(d) && d.files.len() <= u32::MAX && at
            + data_region(d.files, source).len() <= u32::MAX) by {
            reveal(dirs_ready);
        }
        lemma_read_back_dir(data, start + rk.len() as int, d, source, at);
        lemma_read_back_dirs(data, start, dirs, source, base, k + 1);
        assert(names_of(dirs)[k] == d.name);
        assert(back[k] == (DirView { name: d.name, files: reread_files(d.files, source, at) }));
        assert(seq![back[k]] + back.subrange(k + 1, n) =~= back.subrange(k, n));
    }
}

/// Where the parts of a file stand in it.
proof fn lemma_tree_parts(dirs: Seq<DirView>, source: Seq<u8>)
    ensures
        ({
            let image = tree_image(dirs, source);
            let names = dir_names(dirs).len() as int;
            let records = dir_records(dirs, source, meta_len(dirs)).len() as int;
            &&& image.len() >= 16 + names + records
            &&& image.subrange(0, 4) == be_u32_bytes(dirs.len() as u32)
            &&& image.subrange(16, 16 + names) == dir_names(dirs)
            &&& image.subrange(16 + names, 16 + names + records) == dir_records(
                dirs,
                source,
                meta_len(dirs),
            )
        }),
{
    let image = tree_image(dirs, source);
    let head = file_header(dirs.len() as u32);
    let names = dir_names(dirs);
    let records = dir_records(dirs, source, meta_len(dirs));
    assert(head.len() == 16);
    assert(image.subrange(0, 4) =~= be_u32_bytes(dirs.len() as u32));
    assert(image.subrange(16, 16 + names.len() as int) =~= names);
    assert(image.subrange(
        16 + names.len() as int,
        16 + names.len() as int + records.len() as int,
    ) =~= records);
}

/// What saving has checked of every directory.
proof fn lemma_tree_checked(dirs: Seq<DirView>, source: Seq<u8>)
    requires
        saved_tree(dirs, source) is Ok,
    ensures
        dirs.len() <= u32::MAX,
        forall|i: int|
            0 <= i < dirs.len() ==> {
                &&& dir_names_fit(#[trigger] dirs[i])
                &&& encode_utf8(dirs[i].name).len() <= 255
                &&& dirs[i].files.len() <= u32::MAX
                &&& meta_len(dirs) + tree_data(dirs.take(i), source).len() + data_region(
                    dirs[i].files,
                    source,
                ).len() <= u32::MAX
            },
{
    crate::tree_layout::lemma_dir_records_len_bounds(dirs);
    assert forall|i: int| 0 <= i < dirs.len() implies {
        &&& dir_names_fit(#[trigger] dirs[i])
        &&& encode_utf8(dirs[i].name).len() <= 255
        &&& dirs[i].files.len() <= u32::MAX
        &&& meta_len(dirs) + tree_data(dirs.take(i), source).len() + data_region(
            dirs[i].files,
            source,
        ).len() <= u32::MAX
    } by {
        crate::tree_layout::lemma_record_pass(dirs, source, i);
    }
}

/// Reading the names of a saved file gives the names of the directories.
proof fn lemma_saved_names(dirs: Seq<DirView>, source: Seq<u8>)
    requires
        saved_tree(dirs, source) is Ok,
        tree_survives(dirs),
    ensures
        parse_names(tree_image(dirs, source), 16, dirs.len(), NamePolicy::Permissive) == Ok::<
            (Seq<Seq<char>>, int),
            ArchiveError,
        >((names_of(dirs), 16 + dir_names(dirs).len() as int)),
{
    let image = tree_image(dirs, source);
    lemma_tree_parts(dirs, source);
    lemma_tree_checked(dirs, source);
    assert forall|i: int| 0 <= i < dirs.len() implies encode_utf8((#[trigger] dirs[i]).name).len()
        <= 255 && without_nul(dirs[i].name) by {
        assert(dir_survives(dirs[i]));
    }
    assert(dirs.take(0) =~= Seq::<DirView>::empty());
    lemma_read_back_names(image, 16, dirs, 0);
    assert(names_of(dirs).subrange(0, dirs.len() as int) =~= names_of(dirs));
}

/// What was saved is ready to be read back.
proof fn lemma_saved_ready(dirs: Seq<DirView>, source: Seq<u8>)
    requires
        saved_tree(dirs, source) is Ok,
        tree_survives(dirs),
    ensures
        dirs_ready(dirs, source, meta_len(dirs)),
{
    reveal(dirs_ready);
    lemma_tree_checked(dirs, source);
    assert forall|i: int| 0 <= i < dirs.len() implies dir_survives(#[trigger] dirs[i]) by {}
}

/// Where the records of directories that are ready stand in a buffer,
/// reading them gives the directories.
proof fn lemma_records_read_back(
    data: Seq<u8>,
    start: int,
    dirs: Seq<DirView>,
    source: Seq<u8>,
    base: int,
)
    requires
        0 <= start,
        0 <= base,
        start + dir_records(dirs, source, base).len() <= data.len(),
        data.subrange(start, start + dir_records(dirs, source, base).len() as int) == dir_records(
            dirs,
            source,
            base,
        ),
        dirs_ready(dirs, source, base),
    ensures
        parse_dirs(data, start, names_of(dirs), 0, NamePolicy::Permissive) == Ok::<
            Seq<DirView>,
            ArchiveError,
        >(reread_dirs_at(dirs, source, base)),
{
    assert(dirs.take(0) =~= Seq::<DirView>::empty());
    lemma_read_back_dirs(data, start, dirs, source, base, 0);
    assert(reread_dirs_at(dirs, source, base).subrange(0, dirs.len() as int) =~= reread_dirs_at(
        dirs,
        source,
        base,
    ));
}

/// Reading the records of a saved file gives the directories.
proof fn lemma_saved_records(dirs: Seq<DirView>, source: Seq<u8>)
    requires
        saved_tree(dirs, source) is Ok,
        tree_survives(dirs),
    ensures
        parse_dirs(
            tree_image(dirs, source),
            16 + dir_names(dirs).len() as int,
            names_of(dirs),
            0,
            NamePolicy::Permissive,
        ) == Ok::<Seq<DirView>, ArchiveError>(reread_dirs(dirs, source)),
{
    lemma_tree_parts(dirs, source);
    lemma_saved_ready(dirs, source);
    crate::tree_layout::lemma_dir_records_len_bounds(dirs);
    lemma_records_read_back(
        tree_image(dirs, source),
        16 + dir_names(dirs).len() as int,
        dirs,
        source,
        meta_len(dirs),
    );
}

/// The header of a saved file gives the number of its directories.
proof fn lemma_saved_count(dirs: Seq<DirView>, source: Seq<u8>)
    requires
        saved_tree(dirs, source) is Ok,
    ensures
        saved_tree(dirs, source).unwrap() == tree_image(dirs, source),
        tree_image(dirs, source).len() >= 16,
        be_u32_at(tree_image(dirs, source), 0) == dirs.len(),
{
    lemma_tree_parts(dirs, source);
    lemma_tree_checked(dirs, source);
    lemma_be_u32_round_trip(tree_image(dirs, source), 0, dirs.len() as u32);
}

/// A file that was saved can be opened, and lists the directories and files
/// that were saved: each file under its name, with its lengths and its
/// flag, at the offset at which its stored bytes were written. This holds
/// of directories that are as `tree_survives` asks.
pub proof fn lemma_tree_open_after_save(dirs: Seq<DirView>, source: Seq<u8>)
    requires
        saved_tree(dirs, source) is Ok,
        tree_survives(dirs),
    ensures
        parsed_tree(saved_tree(dirs, source).unwrap(), NamePolicy::Permissive) == Ok::<
            Seq<DirView>,
            ArchiveError,
        >(reread_dirs(dirs, source)),
{
    lemma_saved_count(dirs, source);
    lemma_saved_names(dirs, source);
    lemma_saved_records(dirs, source);
}

/// The stored bytes of the first `k` directories open the stored bytes of
/// all, and those of directory `k` follow them.
proof fn lemma_data_place(dirs: Seq<DirView>, source: Seq<u8>, k: int)
    requires
        0 <= k < dirs.len(),
    ensures
        ({
            let all = tree_data(dirs, source);
            let at = tree_data(dirs.take(k), source).len() as int;
            let part = data_region(dirs[k].files, source);
            &&& at + part.len() <= all.len()
            &&& all.subrange(at, at + part.len() as int) == part
        }),
{
    let all = tree_data(dirs, source);
    let dk = tree_data(dirs.take(k), source);
    let dk1 = tree_data(dirs.take(k + 1), source);
    let part = data_region(dirs[k].files, source);
    lemma_dir_step(dirs, source, 0, k);
    lemma_data_prefix(dirs, source, k + 1);
    assert(dk1.subrange(dk.len() as int, dk1.len() as int) =~= part);
    assert(all.subrange(dk.len() as int, dk1.len() as int) =~= all.subrange(
        0,
        dk1.len() as int,
    ).subrange(dk.len() as int, dk1.len() as int));
}

/// The stored bytes of the first `k` directories open the stored bytes of
/// all.
proof fn lemma_data_prefix(dirs: Seq<DirView>, source: Seq<u8>, k: int)
    requires
        0 <= k <= dirs.len(),
    ensures
        tree_data(dirs.take(k), source).len() <= tree_data(dirs, source).len(),
        tree_data(dirs, source).subrange(0, tree_data(dirs.take(k), source).len() as int)
            == tree_data(dirs.take(k), source),
    decreases dirs.len() - k,
{
    let all = tree_data(dirs, source);
    let dk = tree_data(dirs.take(k), source);
    if k < dirs.len() {
        lemma_dir_step(dirs, source, 0, k);
        lemma_data_prefix(dirs, source, k + 1);
        let dk1 = tree_data(dirs.take(k + 1), source);
        assert(all.subrange(0, dk.len() as int) =~= all.subrange(0, dk1.len() as int).subrange(
            0,
            dk.len() as int,
        ));
        assert(dk1.subrange(0, dk.len() as int) =~= dk);
    } else {
        assert(dirs.take(k) =~= dirs);
        assert(all.subrange(0, all.len() as int) =~= all);
    }
}

/// The stored bytes of a saved file start where the header, the names and
/// the records end.
proof fn lemma_tree_data_part(dirs: Seq<DirView>, source: Seq<u8>)
    ensures
        ({
            let image = tree_image(dirs, source);
            let data = tree_data(dirs, source);
            &&& meta_len(dirs) >= 16
            &&& image.len() == meta_len(dirs) + data.len()
            &&& image.subrange(meta_len(dirs), meta_len(dirs) + data.len() as int) == data
        }),
{
    let image = tree_image(dirs, source);
    let head = file_header(dirs.len() as u32);
    let data = tree_data(dirs, source);
    lemma_dir_records_len(dirs, source, meta_len(dirs));
    crate::tree_layout::lemma_dir_records_len_bounds(dirs);
    assert(head.len() == 16);
    assert(image.subrange(meta_len(dirs), meta_len(dirs) + data.len() as int) =~= data);
}

/// Every file of a saved file lies inside the file, and its stored bytes
/// there are the bytes that were saved for it.
pub proof fn lemma_tree_content_kept(dirs: Seq<DirView>, source: Seq<u8>, i: int, j: int)
    requires
        saved_tree(dirs, source) is Ok,
        0 <= i < dirs.len(),
        0 <= j < dirs[i].files.len(),
        crate::flat_laws::lengths_agree(dirs[i].files),
    ensures
        ({
            let image = saved_tree(dirs, source).unwrap();
            let back = reread_dirs(dirs, source)[i].files[j];
            &&& back.offset + back.packed_size <= image.len()
            &&& back.stored(image) == dirs[i].files[j].stored(source)
        }),
{
    let image = tree_image(dirs, source);
    let files = dirs[i].files;
    let e = files[j];
    let data = tree_data(dirs, source);
    let part = data_region(files, source);
    let bytes = e.stored(source).unwrap();
    let base = meta_len(dirs) + tree_data(dirs.take(i), source).len();
    let at = data_region(files.take(j), source).len() as int;
    lemma_tree_checked(dirs, source);
    lemma_tree_data_part(dirs, source);
    lemma_data_place(dirs, source, i);
    crate::flat_laws::lemma_flat_place(files, source, j);
    crate::flat::lemma_flat_prefix_len(files, source, j);
    assert(crate::flat::all_stored(files, source));
    assert(e.stored(source) is Some);
    assert(bytes.len() == e.packed_size);
    lemma_piece(image, meta_len(dirs), data, tree_data(dirs.take(i), source).len() as int, part);
    lemma_piece(image, base, part, at, bytes);
}

/// The entries of `back` say what the entries of `files` say, and have in
/// `image` the stored bytes that those have in `source`.
pub open spec fn same_entries(
    back: Seq<EntryView>,
    image: Seq<u8>,
    files: Seq<EntryView>,
    source: Seq<u8>,
) -> bool {
    &&& back.len() == files.len()
    &&& forall|j: int|
        0 <= j < files.len() ==> {
            &&& (#[trigger] back[j]).name == files[j].name
            &&& back[j].size == files[j].size
            &&& back[j].packed_size == files[j].packed_size
            &&& back[j].compressed == files[j].compressed
            &&& back[j].stored(image) is Some
            &&& back[j].stored(image) == files[j].stored(source)
        }
}

/// Entries that say the same and store the same make the same data and the
/// same records.
proof fn lemma_same_file_regions(
    back: Seq<EntryView>,
    image: Seq<u8>,
    files: Seq<EntryView>,
    source: Seq<u8>,
    dir: Seq<char>,
    base: int,
    k: int,
)
    requires
        same_entries(back, image, files, source),
        0 <= k <= files.len(),
    ensures
        crate::flat::all_stored(back.take(k), image),
        data_region(back.take(k), image) == data_region(files.take(k), source),
        file_records(back.take(k), dir, image, base) == file_records(
            files.take(k),
            dir,
            source,
            base,
        ),
        file_records_len(back.take(k), dir) == file_records_len(files.take(k), dir),
    decreases k,
{
    if k == 0 {
        assert(back.take(0) =~= Seq::<EntryView>::empty());
        assert(files.take(0) =~= Seq::<EntryView>::empty());
    } else {
        lemma_same_file_regions(back, image, files, source, dir, base, k - 1);
        lemma_file_step(files, dir, source, base, k - 1);
        lemma_file_step(back, dir, image, base, k - 1);
        assert(back[k - 1].name == files[k - 1].name);
        assert forall|j: int| 0 <= j < k implies (#[trigger] back.take(k)[j]).stored(image)
            is Some by {
            assert(back[j].stored(image) is Some);
        }
        let offset = (base + data_region(files.take(k - 1), source).len()) as u32;
        assert(file_record(back[k - 1], dir, offset) == file_record(files[k - 1], dir, offset));
    }
}

/// The directories of `back` are named as those of `dirs`, and their files
/// say and store the same.
#[verifier::opaque]
pub open spec fn same_dirs(
    back: Seq<DirView>,
    image: Seq<u8>,
    dirs: Seq<DirView>,
    source: Seq<u8>,
) -> bool {
    &&& back.len() == dirs.len()
    &&& forall|i: int|
        0 <= i < dirs.len() ==> (#[trigger] back[i]).name == dirs[i].name && same_entries(
            back[i].files,
            image,
            dirs[i].files,
            source,
        )
}

/// Directories that are named the same, with files that say and store the
/// same, make the same names, the same records and the same data.
proof fn lemma_same_dir_regions(
    back: Seq<DirView>,
    image: Seq<u8>,
    dirs: Seq<DirView>,
    source: Seq<u8>,
    base: int,
    k: int,
)
    requires
        same_dirs(back, image, dirs, source),
        0 <= k <= dirs.len(),
    ensures
        crate::tree_layout::tree_stored(back.take(k), image),
        dir_names(back.take(k)) == dir_names(dirs.take(k)),
        tree_data(back.take(k), image) == tree_data(dirs.take(k), source),
        dir_records(back.take(k), image, base) == dir_records(dirs.take(k), source, base),
        dir_records_len(back.take(k)) == dir_records_len(dirs.take(k)),
        forall|i: int|
            0 <= i < k ==> (dir_names_fit(dirs[i]) ==> dir_names_fit(#[trigger] back.take(k)[i])),
    decreases k,
{
    reveal(same_dirs);
    if k == 0 {
        assert(back.take(0) =~= Seq::<DirView>::empty());
        assert(dirs.take(0) =~= Seq::<DirView>::empty());
    } else {
        let b = back[k - 1];
        let d = dirs[k - 1];
        let at = base + tree_data(dirs.take(k - 1), source).len();
        lemma_same_dir_regions(back, image, dirs, source, base, k - 1);
        lemma_dir_step(dirs, source, base, k - 1);
        lemma_dir_step(back, image, base, k - 1);
        assert(b.name == d.name && same_entries(b.files, image, d.files, source));
        lemma_same_file_regions(b.files, image, d.files, source, d.name, at, d.files.len() as int);
        assert(b.files.take(d.files.len() as int) =~= b.files);
        assert(d.files.take(d.files.len() as int) =~= d.files);
        assert(dir_record(b, image, at) == dir_record(d, source, at));
        assert forall|i: int| 0 <= i < k implies crate::flat::all_stored(
            (#[trigger] back.take(k)[i]).files,
            image,
        ) by {
            if i < k - 1 {
                assert(back.take(k - 1)[i] == back.take(k)[i]);
            }
        }
        assert forall|i: int| 0 <= i < k implies (dir_names_fit(dirs[i]) ==> dir_names_fit(
            #[trigger] back.take(k)[i],
        )) by {
            if i < k - 1 {
                assert(back.take(k - 1)[i] == back.take(k)[i]);
            } else if dir_names_fit(d) {
                assert forall|j: int| 0 <= j < b.files.len() implies encode_utf8(
                    stored_name((#[trigger] b.files[j]).name, b.name),
                ).len() <= 255 by {
                    assert(b.files[j].name == d.files[j].name);
                    assert(encode_utf8(stored_name(d.files[j].name, d.name)).len() <= 255);
                }
            }
        }
    }
}

/// What a saved file gives back says and stores what was saved.
proof fn lemma_reread_is_same(dirs: Seq<DirView>, source: Seq<u8>)
    requires
        saved_tree(dirs, source) is Ok,
        forall|i: int|
            0 <= i < dirs.len() ==> crate::flat_laws::lengths_agree((#[trigger] dirs[i]).files),
    ensures
        same_dirs(reread_dirs(dirs, source), tree_image(dirs, source), dirs, source),
{
    reveal(same_dirs);
    let back = reread_dirs(dirs, source);
    let image = tree_image(dirs, source);
    assert forall|i: int| 0 <= i < dirs.len() implies (#[trigger] back[i]).name == dirs[i].name
        && same_entries(back[i].files, image, dirs[i].files, source) by {
        assert(crate::flat_laws::lengths_agree(dirs[i].files));
        assert forall|j: int| 0 <= j < dirs[i].files.len() implies {
            &&& (#[trigger] back[i].files[j]).name == dirs[i].files[j].name
            &&& back[i].files[j].size == dirs[i].files[j].size
            &&& back[i].files[j].packed_size == dirs[i].files[j].packed_size
            &&& back[i].files[j].compressed == dirs[i].files[j].compressed
            &&& back[i].files[j].stored(image) is Some
            &&& back[i].files[j].stored(image) == dirs[i].files[j].stored(source)
        } by {
            lemma_tree_content_kept(dirs, source, i, j);
        }
    }
}

/// A file that was saved and opened is saved again byte for byte.
pub proof fn lemma_tree_resave(dirs: Seq<DirView>, source: Seq<u8>)
    requires
        saved_tree(dirs, source) is Ok,
        forall|i: int|
            0 <= i < dirs.len() ==> crate::flat_laws::lengths_agree((#[trigger] dirs[i]).files),
    ensures
        saved_tree(reread_dirs(dirs, source), saved_tree(dirs, source).unwrap()) == saved_tree(
            dirs,
            source,
        ),
{
    let back = reread_dirs(dirs, source);
    let image = tree_image(dirs, source);
    let n = dirs.len() as int;
    lemma_reread_is_same(dirs, source);
    lemma_same_dir_regions(back, image, dirs, source, meta_len(dirs), n);
    assert(back.take(n) =~= back);
    assert(dirs.take(n) =~= dirs);
    assert(meta_len(back) == meta_len(dirs));
    assert(tree_fits(back, image)) by {
        assert forall|i: int| 0 <= i < back.len() implies dir_names_fit(#[trigger] back[i]) by {
            assert(dir_names_fit(dirs[i]));
            assert(back.take(n)[i] == back[i]);
        }
    }
    assert(tree_image(back, image) == image);
}

/// Every file of a directory other than the root is named with the path of
/// its directory in front.
pub open spec fn well_placed(dirs: Seq<DirView>) -> bool {
    forall|i: int, j: int|
        0 <= i < dirs.len() && 0 <= j < dirs[i].files.len() && dirs[i].name != root_name()
            ==> in_directory(#[trigger] dirs[i].files[j].name, dirs[i].name)
}

/// The files that the records of a directory list lie in that directory.
proof fn lemma_parsed_files_placed(
    data: Seq<u8>,
    pos: int,
    count: nat,
    dir: Seq<char>,
    policy: NamePolicy,
)
    requires
        parse_files(data, pos, count, dir, policy) is Ok,
        dir != root_name(),
    ensures
        forall|j: int|
            0 <= j < parse_files(data, pos, count, dir, policy).unwrap().0.len() ==> in_directory(
                (#[trigger] parse_files(data, pos, count, dir, policy).unwrap().0[j]).name,
                dir,
            ),
    decreases count,
{
    if count > 0 {
        let first = parse_file(data, pos, dir, policy).unwrap();
        let rest = parse_files(data, first.1, (count - 1) as nat, dir, policy);
        lemma_parsed_files_placed(data, first.1, (count - 1) as nat, dir, policy);
        let all = parse_files(data, pos, count, dir, policy).unwrap().0;
        assert(all == seq![first.0] + rest.unwrap().0);
        let file = parse_name(data, pos, policy).unwrap().0;
        assert(first.0.name == dir + seq!['\\'] + file);
        assert(first.0.name.take(dir.len() as int) =~= dir);
        assert forall|j: int| 0 <= j < all.len() implies in_directory(
            (#[trigger] all[j]).name,
            dir,
        ) by {
            if j > 0 {
                assert(all[j] == rest.unwrap().0[j - 1]);
            }
        }
    }
}

/// The directories that the records from `from` on list hold the files
/// that lie in them.
proof fn lemma_parsed_dirs_placed(
    data: Seq<u8>,
    pos: int,
    names: Seq<Seq<char>>,
    from: int,
    policy: NamePolicy,
)
    requires
        parse_dirs(data, pos, names, from, policy) is Ok,
        0 <= from,
    ensures
        well_placed(parse_dirs(data, pos, names, from, policy).unwrap()),
    decreases names.len() - from,
{
    if from < names.len() {
        let first = parse_dir(data, pos, names[from], policy).unwrap();
        let rest = parse_dirs(data, first.1, names, from + 1, policy);
        lemma_parsed_dirs_placed(data, first.1, names, from + 1, policy);
        let all = parse_dirs(data, pos, names, from, policy).unwrap();
        assert(all == seq![first.0] + rest.unwrap());
        if names[from] != root_name() {
            lemma_parsed_files_placed(
                data,
                pos + 16,
                be_u32_at(data, pos) as nat,
                names[from],
                policy,
            );
        }
        assert forall|i: int, j: int|
            0 <= i < all.len() && 0 <= j < all[i].files.len() && all[i].name
                != root_name() implies in_directory(#[trigger] all[i].files[j].name, all[i].name) by {
            if i > 0 {
                assert(all[i] == rest.unwrap()[i - 1]);
                assert(in_directory(rest.unwrap()[i - 1].files[j].name, rest.unwrap()[i - 1].name));
            }
        }
    }
}

/// An archive that was read holds every file in the directory whose path
/// leads its name.
pub proof fn lemma_parsed_tree_well_placed(data: Seq<u8>, policy: NamePolicy)
    requires
        parsed_tree(data, policy) is Ok,
    ensures
        well_placed(parsed_tree(data, policy).unwrap()),
{
    let names = parse_names(data, 16, be_u32_at(data, 0) as nat, policy).unwrap();
    lemma_parsed_dirs_placed(data, names.1, names.0, 0, policy);
}

/// A name with a backslash lies in the directory that it belongs to.
proof fn lemma_directory_of(name: Seq<char>, end: int)
    requires
        0 <= end <= name.len(),
    ensures
        last_backslash(name, end) < end,
        last_backslash(name, end) >= 0 ==> name[last_backslash(name, end)] == '\\',
        last_backslash(name, end) >= -1,
    decreases end,
{
    if end > 0 && name[end - 1] != '\\' {
        lemma_directory_of(name, end - 1);
    }
}

/// Where a directory of a name is found, it carries the name.
proof fn lemma_dir_index_names(dirs: Seq<DirView>, name: Seq<char>)
    ensures
        0 <= dir_index(dirs, name) <= dirs.len(),
        dir_index(dirs, name) < dirs.len() ==> dirs[dir_index(dirs, name)].name == name,
    decreases dirs.len(),
{
    if dirs.len() > 0 && dirs[0].name != name {
        lemma_dir_index_names(dirs.drop_first(), name);
    }
}

/// A file that is put into the directory it belongs to lies in it.
proof fn lemma_placed_well(dirs: Seq<DirView>, e: EntryView)
    requires
        well_placed(dirs),
    ensures
        well_placed(placed(dirs, e)),
{
    let home = directory_of(e.name);
    let at = dir_index(dirs, home);
    let after = placed(dirs, e);
    lemma_dir_index_names(dirs, home);
    lemma_directory_of(e.name, e.name.len() as int);
    if home != root_name() {
        assert(in_directory(e.name, home));
    }
    assert forall|i: int, j: int|
        0 <= i < after.len() && 0 <= j < after[i].files.len() && after[i].name
            != root_name() implies in_directory(#[trigger] after[i].files[j].name, after[i].name) by {
        if at < dirs.len() {
            if i == at {
                if j < dirs[at].files.len() {
                    assert(after[i].files[j] == dirs[i].files[j]);
                    assert(in_directory(dirs[i].files[j].name, dirs[i].name));
                }
            } else {
                assert(in_directory(dirs[i].files[j].name, dirs[i].name));
            }
        } else {
            if i < dirs.len() {
                assert(in_directory(dirs[i].files[j].name, dirs[i].name));
            }
        }
    }
}

/// What stays behind when names are taken out was there before.
proof fn lemma_without_names_from(s: Seq<EntryView>, batch: Seq<EntryView>)
    ensures
        forall|k: int|
            0 <= k < without_names(s, batch).len() ==> s.contains(
                #[trigger] without_names(s, batch)[k],
            ),
    decreases s.len(),
{
    if s.len() > 0 {
        let init = s.drop_last();
        lemma_without_names_from(init, batch);
        let kept = without_names(init, batch);
        assert forall|k: int| 0 <= k < without_names(s, batch).len() implies s.contains(
            #[trigger] without_names(s, batch)[k],
        ) by {
            if k < kept.len() {
                assert(without_names(s, batch)[k] == kept[k]);
                let m = choose|m: int| 0 <= m < init.len() && init[m] == kept[k];
                assert(s[m] == kept[k]);
            } else {
                assert(s[s.len() - 1] == s.last());
            }
        }
    }
}

/// Files that join one after another each lie in their directory.
proof fn lemma_placed_all_well(dirs: Seq<DirView>, batch: Seq<EntryView>)
    requires
        well_placed(dirs),
    ensures
        well_placed(placed_all(dirs, batch)),
    decreases batch.len(),
{
    if batch.len() > 0 {
        lemma_placed_all_well(dirs, batch.drop_last());
        lemma_placed_well(placed_all(dirs, batch.drop_last()), batch.last());
    }
}

/// Adding a batch to an archive in which every file lies in its directory
/// leaves every file in its directory.
pub proof fn lemma_after_add_well_placed(dirs: Seq<DirView>, batch: Seq<EntryView>)
    requires
        well_placed(dirs),
    ensures
        well_placed(after_add(dirs, batch)),
{
    let cleared = dirs_without(dirs, batch);
    assert forall|i: int, j: int|
        0 <= i < cleared.len() && 0 <= j < cleared[i].files.len() && cleared[i].name
            != root_name() implies in_directory(
        #[trigger] cleared[i].files[j].name,
        cleared[i].name,
    ) by {
        lemma_without_names_from(dirs[i].files, batch);
        let f = cleared[i].files[j];
        assert(f == without_names(dirs[i].files, batch)[j]);
        let m = choose|m: int| 0 <= m < dirs[i].files.len() && dirs[i].files[m] == f;
        assert(in_directory(dirs[i].files[m].name, dirs[i].name));
    }
    lemma_placed_all_well(cleared, first_of_each_name(batch));
}

} // verus!
