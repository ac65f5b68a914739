//! Flag definition files written at spec level, and the law that reading
//! one gives back the definitions written.
use crate::error::{DataError, SaveError};
use crate::le::le_bytes_i32;
use crate::reader::{holds_at, lemma_holds_split, lemma_i32_roundtrip, rep, sp_bool, sp_i32};
use crate::subflags::{def_step, item_step, sp_flag_defs, sp_flag_defs_file, sp_item, sp_subflag_def, SubFlagDefView};
use crate::text::{lemma_string_roundtrip, ser_string, string_fits};
use vstd::prelude::*;

verus! {

/// A flag stored as one byte: 1 for set, 0 for clear.
pub open spec fn flag_byte(b: bool) -> Seq<u8> {
    if b {
        seq![1u8]
    } else {
        seq![0u8]
    }
}

pub open spec fn ser_items(items: Seq<(Seq<char>, Seq<char>)>) -> Seq<u8>
    decreases items.len(),
{
    if items.len() == 0 {
        Seq::empty()
    } else {
        ser_items(items.drop_last()) + ser_string(items.last().0) + ser_string(items.last().1)
    }
}

/// The bytes of a definition: its name, the vector, rotation and flip
/// flags, the two index types, the meta value, the options, then the item
/// count and the items, each two strings.
#[verifier::opaque]
pub open spec fn ser_flag_def(f: SubFlagDefView) -> Seq<u8> {
    ser_string(f.name) + flag_byte(f.has_vec) + flag_byte(f.has_rotation) + flag_byte(f.has_flip)
        + le_bytes_i32(f.index_type0) + le_bytes_i32(f.index_type1) + le_bytes_i32(f.meta) + le_bytes_i32(
        f.options,
    ) + le_bytes_i32(f.item_list.len() as i32) + ser_items(f.item_list)
}

pub open spec fn ser_flag_def_list(fs: Seq<SubFlagDefView>) -> Seq<u8>
    decreases fs.len(),
{
    if fs.len() == 0 {
        Seq::empty()
    } else {
        ser_flag_def_list(fs.drop_last()) + ser_flag_def(fs.last())
    }
}

/// The bytes of a flag definition file: version 100, the count, then the
/// definitions.
pub open spec fn ser_flag_defs(fs: Seq<SubFlagDefView>) -> Seq<u8> {
    le_bytes_i32(100) + le_bytes_i32(fs.len() as i32) + ser_flag_def_list(fs)
}

/// A definition that can be written: its strings fit and its items can be
/// counted by an `i32`.
pub open spec fn flag_def_writable(f: SubFlagDefView) -> bool {
    &&& string_fits(f.name)
    &&& f.item_list.len() <= i32::MAX
    &&& forall|i: int| 0 <= i < f.item_list.len() ==> string_fits(#[trigger] f.item_list[i].0) && string_fits(f.item_list[i].1)
}

proof fn lemma_items_roundtrip(d: Seq<u8>, p: int, items: Seq<(Seq<char>, Seq<char>)>)
    requires
        holds_at(d, p, ser_items(items)),
        forall|i: int| 0 <= i < items.len() ==> string_fits(#[trigger] items[i].0) && string_fits(items[i].1),
    ensures
        rep(item_step(d), p, items.len()) == Ok::<(Seq<(Seq<char>, Seq<char>)>, int), (SaveError, int)>(
            (items, p + ser_items(items).len()),
        ),
    decreases items.len(),
{
    if items.len() > 0 {
        let init = items.drop_last();
        let last = items.last();
        let a = ser_string(last.0);
        let b = ser_string(last.1);
        lemma_holds_split(d, p, ser_items(init) + a, b);
        lemma_holds_split(d, p, ser_items(init), a);
        assert forall|i: int| 0 <= i < init.len() implies string_fits(#[trigger] init[i].0) && string_fits(init[i].1) by {
            assert(init[i] == items[i]);
        }
        lemma_items_roundtrip(d, p, init);
        assert(string_fits(items[items.len() - 1].0) && string_fits(items[items.len() - 1].1));
        let q = p + ser_items(init).len();
        lemma_string_roundtrip(d, q, last.0);
        lemma_string_roundtrip(d, q + a.len(), last.1);
        assert(sp_item(d, q) == Ok::<((Seq<char>, Seq<char>), int), (SaveError, int)>((last, q + a.len() + b.len())));
        assert(init.push(last) =~= items);
        assert(init.len() == (items.len() - 1) as nat);
    } else {
        assert(items =~= Seq::empty());
    }
}

proof fn lemma_flag_def_layout(d: Seq<u8>, p: int, f: SubFlagDefView)
    requires
        holds_at(d, p, ser_flag_def(f)),
    ensures
        ({
            let q = p + ser_string(f.name).len();
            &&& holds_at(d, p, ser_string(f.name))
            &&& holds_at(d, q, flag_byte(f.has_vec))
            &&& holds_at(d, q + 1, flag_byte(f.has_rotation))
            &&& holds_at(d, q + 2, flag_byte(f.has_flip))
            &&& holds_at(d, q + 3, le_bytes_i32(f.index_type0))
            &&& holds_at(d, q + 7, le_bytes_i32(f.index_type1))
            &&& holds_at(d, q + 11, le_bytes_i32(f.meta))
            &&& holds_at(d, q + 15, le_bytes_i32(f.options))
            &&& holds_at(d, q + 19, le_bytes_i32(f.item_list.len() as i32))
            &&& holds_at(d, q + 23, ser_items(f.item_list))
            &&& q + 23 + ser_items(f.item_list).len() == p + ser_flag_def(f).len()
        }),
{
    reveal(ser_flag_def);
    let b0 = ser_string(f.name);
    let b1 = flag_byte(f.has_vec);
    let b2 = flag_byte(f.has_rotation);
    let b3 = flag_byte(f.has_flip);
    let b4 = le_bytes_i32(f.index_type0);
    let b5 = le_bytes_i32(f.index_type1);
    let b6 = le_bytes_i32(f.meta);
    let b7 = le_bytes_i32(f.options);
    let b8 = le_bytes_i32(f.item_list.len() as i32);
    let b9 = ser_items(f.item_list);
    lemma_holds_split(d, p, b0 + b1 + b2 + b3 + b4 + b5 + b6 + b7 + b8, b9);
    lemma_holds_split(d, p, b0 + b1 + b2 + b3 + b4 + b5 + b6 + b7, b8);
    lemma_holds_split(d, p, b0 + b1 + b2 + b3 + b4 + b5 + b6, b7);
    lemma_holds_split(d, p, b0 + b1 + b2 + b3 + b4 + b5, b6);
    lemma_holds_split(d, p, b0 + b1 + b2 + b3 + b4, b5);
    lemma_holds_split(d, p, b0 + b1 + b2 + b3, b4);
    lemma_holds_split(d, p, b0 + b1 + b2, b3);
    lemma_holds_split(d, p, b0 + b1, b2);
    lemma_holds_split(d, p, b0, b1);
}

proof fn lemma_flag_byte_roundtrip(d: Seq<u8>, p: int, b: bool)
    requires
        holds_at(d, p, flag_byte(b)),
    ensures
        sp_bool(d, p) == Ok::<(bool, int), (SaveError, int)>((b, p + 1)),
{
    assert(d.subrange(p, p + 1)[0] == d[p]);
}

#[verifier::rlimit(40)]
proof fn lemma_flag_def_roundtrip(d: Seq<u8>, p: int, f: SubFlagDefView)
    requires
        holds_at(d, p, ser_flag_def(f)),
        flag_def_writable(f),
    ensures
        sp_subflag_def(d, p) == Ok::<(SubFlagDefView, int), (SaveError, int)>((f, p + ser_flag_def(f).len())),
{
    reveal(sp_subflag_def);
    lemma_flag_def_layout(d, p, f);
    let q = p + ser_string(f.name).len();
    lemma_string_roundtrip(d, p, f.name);
    lemma_flag_byte_roundtrip(d, q, f.has_vec);
    lemma_flag_byte_roundtrip(d, q + 1, f.has_rotation);
    lemma_flag_byte_roundtrip(d, q + 2, f.has_flip);
    lemma_i32_roundtrip(d, q + 3, f.index_type0);
    lemma_i32_roundtrip(d, q + 7, f.index_type1);
    lemma_i32_roundtrip(d, q + 11, f.meta);
    lemma_i32_roundtrip(d, q + 15, f.options);
    lemma_i32_roundtrip(d, q + 19, f.item_list.len() as i32);
    lemma_items_roundtrip(d, q + 23, f.item_list);
    assert((f.item_list.len() as i32) as nat == f.item_list.len());
}

proof fn lemma_flag_def_list_roundtrip(d: Seq<u8>, p: int, fs: Seq<SubFlagDefView>)
    requires
        holds_at(d, p, ser_flag_def_list(fs)),
        forall|i: int| 0 <= i < fs.len() ==> flag_def_writable(#[trigger] fs[i]),
    ensures
        rep(def_step(d), p, fs.len()) == Ok::<(Seq<SubFlagDefView>, int), (SaveError, int)>(
            (fs, p + ser_flag_def_list(fs).len()),
        ),
    decreases fs.len(),
{
    if fs.len() > 0 {
        let init = fs.drop_last();
        lemma_holds_split(d, p, ser_flag_def_list(init), ser_flag_def(fs.last()));
        assert forall|i: int| 0 <= i < init.len() implies flag_def_writable(#[trigger] init[i]) by {
            assert(init[i] == fs[i]);
        }
        lemma_flag_def_list_roundtrip(d, p, init);
        assert(flag_def_writable(fs[fs.len() - 1]));
        lemma_flag_def_roundtrip(d, p + ser_flag_def_list(init).len(), fs.last());
        assert(init.push(fs.last()) =~= fs);
        assert(init.len() == (fs.len() - 1) as nat);
    } else {
        assert(fs =~= Seq::empty());
    }
}

/// A written flag definition file reads back as its definitions, in order,
/// the whole file being read.
pub proof fn lemma_flag_defs_roundtrip(fs: Seq<SubFlagDefView>)
    requires
        fs.len() <= i32::MAX,
        forall|i: int| 0 <= i < fs.len() ==> flag_def_writable(#[trigger] fs[i]),
    ensures
        sp_flag_defs_file(ser_flag_defs(fs)) == Ok::<(Seq<SubFlagDefView>, int), (SaveError, int)>(
            (fs, ser_flag_defs(fs).len() as int),
        ),
        sp_flag_defs(ser_flag_defs(fs)) == Ok::<Seq<SubFlagDefView>, SaveError>(fs),
{
    let d = ser_flag_defs(fs);
    let a = le_bytes_i32(100);
    let b = le_bytes_i32(fs.len() as i32);
    let c = ser_flag_def_list(fs);
    assert(d.subrange(0, d.len() as int) =~= d);
    lemma_holds_split(d, 0, a + b, c);
    lemma_holds_split(d, 0, a, b);
    lemma_i32_roundtrip(d, 0, 100);
    lemma_i32_roundtrip(d, 4, fs.len() as i32);
    lemma_flag_def_list_roundtrip(d, 8, fs);
    assert((fs.len() as i32) as nat == fs.len());
}

/// Only version 100 is read: a file that starts with another version
/// number is refused with that number.
pub proof fn lemma_flag_defs_version(d: Seq<u8>)
    ensures
        sp_i32(d, 0) matches Ok((v, _)) ==> (v != 100 ==> sp_flag_defs(d) == Err::<Seq<SubFlagDefView>, SaveError>(
            SaveError::InvalidData(DataError::FlagDefsVersion(v)),
        )),
{
}

} // verus!
