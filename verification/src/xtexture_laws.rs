//! Texture metadata written at spec level, sub-flag by sub-flag and cell by
//! cell, and the laws that reading it gives back what was written; and what
//! reading a master bundle gives for each entry name.
use crate::error::SaveError;
use crate::le::{le_bytes_i32, le_bytes_u32};
use crate::reader::{holds_at, lemma_holds_split, lemma_i32_roundtrip, lemma_u32_roundtrip, rep, sp_bool, sp_counted};
use crate::subflags::SubFlagDefView;
use crate::text::{lemma_string_bytes_roundtrip, lemma_string_roundtrip, ser_string, string_fits, utf8_lossy, varint_bytes};
use crate::xtexture::{cell_step, master_step, sp_master_entry, pairs_map, sp_master, sp_master_file, sp_cell, sp_skip_subflag, sp_type_flags, sp_xtexture, subflag_step, XSprite};
use vstd::prelude::*;

verus! {

/// The values a sub-flag stores: its definition index, then a vector, a
/// rotation, a flip byte and three numbers, of which only those that its
/// definition announces are stored.
pub struct SubFlagValues {
    pub index: i32,
    pub vec: (u32, u32),
    pub rotation: u32,
    pub flip: u8,
    pub index0: i32,
    pub index1: i32,
    pub options: i32,
}

/// The bytes of a sub-flag whose definition is `def`: the index, then two
/// `f32` for a vector, one `f32` for a rotation, one byte for a flip, and
/// an `i32` for a positive first index type, one for a positive second
/// index type and one for positive options.
pub open spec fn ser_subflag(s: SubFlagValues, def: SubFlagDefView) -> Seq<u8> {
    le_bytes_i32(s.index) + (if def.has_vec {
        le_bytes_u32(s.vec.0) + le_bytes_u32(s.vec.1)
    } else {
        Seq::empty()
    }) + (if def.has_rotation {
        le_bytes_u32(s.rotation)
    } else {
        Seq::empty()
    }) + (if def.has_flip {
        seq![s.flip]
    } else {
        Seq::empty()
    }) + (if def.index_type0 > 0 {
        le_bytes_i32(s.index0)
    } else {
        Seq::empty()
    }) + (if def.index_type1 > 0 {
        le_bytes_i32(s.index1)
    } else {
        Seq::empty()
    }) + (if def.options > 0 {
        le_bytes_i32(s.options)
    } else {
        Seq::empty()
    })
}

/// A written sub-flag whose index names one of `defs` is skipped exactly:
/// reading lands right after its last byte.
pub proof fn lemma_skip_subflag_roundtrip(d: Seq<u8>, p: int, s: SubFlagValues, defs: Seq<SubFlagDefView>)
    requires
        0 <= s.index < defs.len(),
        holds_at(d, p, ser_subflag(s, defs[s.index as int])),
    ensures
        sp_skip_subflag(d, p, defs) == Ok::<((), int), (SaveError, int)>(
            ((), p + ser_subflag(s, defs[s.index as int]).len()),
        ),
{
    let b = ser_subflag(s, defs[s.index as int]);
    let head = le_bytes_i32(s.index);
    assert(b.len() >= 4);
    assert(head + b.subrange(4, b.len() as int) =~= b);
    lemma_holds_split(d, p, head, b.subrange(4, b.len() as int));
    lemma_i32_roundtrip(d, p, s.index);
}

/// The sub-flags of a cell, each written with the definition its index
/// names.
pub open spec fn ser_subflags(ss: Seq<SubFlagValues>, defs: Seq<SubFlagDefView>) -> Seq<u8>
    decreases ss.len(),
{
    if ss.len() == 0 {
        Seq::empty()
    } else {
        ser_subflags(ss.drop_last(), defs) + ser_subflag(ss.last(), defs[ss.last().index as int])
    }
}

/// Every sub-flag's index names one of `defs`.
pub open spec fn subflags_valid(ss: Seq<SubFlagValues>, defs: Seq<SubFlagDefView>) -> bool {
    forall|i: int| 0 <= i < ss.len() ==> 0 <= #[trigger] ss[i].index < defs.len()
}

proof fn lemma_subflags_roundtrip(d: Seq<u8>, p: int, ss: Seq<SubFlagValues>, defs: Seq<SubFlagDefView>)
    requires
        holds_at(d, p, ser_subflags(ss, defs)),
        subflags_valid(ss, defs),
    ensures
        rep(subflag_step(d, defs), p, ss.len()) == Ok::<(Seq<()>, int), (SaveError, int)>(
            (Seq::empty(), p + ser_subflags(ss, defs).len()),
        ),
    decreases ss.len(),
{
    if ss.len() > 0 {
        let init = ss.drop_last();
        let last = ss.last();
        lemma_holds_split(d, p, ser_subflags(init, defs), ser_subflag(last, defs[last.index as int]));
        assert(subflags_valid(init, defs)) by {
            assert forall|i: int| 0 <= i < init.len() implies 0 <= #[trigger] init[i].index < defs.len() by {
                assert(init[i] == ss[i]);
            }
        }
        lemma_subflags_roundtrip(d, p, init, defs);
        assert(0 <= ss[ss.len() - 1].index < defs.len());
        lemma_skip_subflag_roundtrip(d, p + ser_subflags(init, defs).len(), last, defs);
        assert(init.len() == (ss.len() - 1) as nat);
    }
}

/// The values of a cell that reading skips: its name, its sub-flags and,
/// for texture type 1, its character reference.
pub struct CellExtra {
    pub name: Seq<char>,
    pub subflags: Seq<SubFlagValues>,
    pub char_ref: i32,
}

/// The fields that texture type `ttype` adds to a cell: a character
/// reference and the flags for type 1, the flags for types 2 and 4,
/// nothing for the others.
pub open spec fn ser_type_fields(ttype: i32, flags: i32, char_ref: i32) -> Seq<u8> {
    if ttype == 1 {
        le_bytes_i32(char_ref) + le_bytes_i32(flags)
    } else if ttype == 2 || ttype == 4 {
        le_bytes_i32(flags)
    } else {
        Seq::empty()
    }
}

/// The bytes of a present cell: a one byte, the name, the source
/// rectangle, the origin, the sub-flag count and the sub-flags, then the
/// type's fields.
#[verifier::opaque]
pub open spec fn ser_sprite(s: XSprite, x: CellExtra, ttype: i32, defs: Seq<SubFlagDefView>) -> Seq<u8> {
    seq![1u8] + ser_string(x.name) + le_bytes_i32(s.src_rect.0) + le_bytes_i32(s.src_rect.1) + le_bytes_i32(
        s.src_rect.2,
    ) + le_bytes_i32(s.src_rect.3) + le_bytes_u32(s.origin.0) + le_bytes_u32(s.origin.1) + le_bytes_i32(
        x.subflags.len() as i32,
    ) + ser_subflags(x.subflags, defs) + ser_type_fields(ttype, s.flags, x.char_ref)
}

/// The bytes of a cell: a zero byte for an absent cell, else those of the
/// present cell.
pub open spec fn ser_cell(c: Option<XSprite>, x: CellExtra, ttype: i32, defs: Seq<SubFlagDefView>) -> Seq<u8> {
    match c {
        None => seq![0u8],
        Some(s) => ser_sprite(s, x, ttype, defs),
    }
}

proof fn lemma_sprite_layout(d: Seq<u8>, p: int, s: XSprite, x: CellExtra, ttype: i32, defs: Seq<SubFlagDefView>)
    requires
        holds_at(d, p, ser_sprite(s, x, ttype, defs)),
    ensures
        ({
            let q = p + 1 + ser_string(x.name).len();
            let r = q + 28 + ser_subflags(x.subflags, defs).len();
            &&& d[p] == 1u8
            &&& holds_at(d, p + 1, ser_string(x.name))
            &&& holds_at(d, q, le_bytes_i32(s.src_rect.0))
            &&& holds_at(d, q + 4, le_bytes_i32(s.src_rect.1))
            &&& holds_at(d, q + 8, le_bytes_i32(s.src_rect.2))
            &&& holds_at(d, q + 12, le_bytes_i32(s.src_rect.3))
            &&& holds_at(d, q + 16, le_bytes_u32(s.origin.0))
            &&& holds_at(d, q + 20, le_bytes_u32(s.origin.1))
            &&& holds_at(d, q + 24, le_bytes_i32(x.subflags.len() as i32))
            &&& holds_at(d, q + 28, ser_subflags(x.subflags, defs))
            &&& holds_at(d, r, ser_type_fields(ttype, s.flags, x.char_ref))
            &&& r + ser_type_fields(ttype, s.flags, x.char_ref).len() == p + ser_sprite(s, x, ttype, defs).len()
        }),
{
    reveal(ser_sprite);
    let b0 = seq![1u8];
    let b1 = ser_string(x.name);
    let b2 = le_bytes_i32(s.src_rect.0);
    let b3 = le_bytes_i32(s.src_rect.1);
    let b4 = le_bytes_i32(s.src_rect.2);
    let b5 = le_bytes_i32(s.src_rect.3);
    let b6 = le_bytes_u32(s.origin.0);
    let b7 = le_bytes_u32(s.origin.1);
    let b8 = le_bytes_i32(x.subflags.len() as i32);
    let b9 = ser_subflags(x.subflags, defs);
    let b10 = ser_type_fields(ttype, s.flags, x.char_ref);
    lemma_holds_split(d, p, b0 + b1 + b2 + b3 + b4 + b5 + b6 + b7 + b8 + b9, b10);
    lemma_holds_split(d, p, b0 + b1 + b2 + b3 + b4 + b5 + b6 + b7 + b8, b9);
    lemma_holds_split(d, p, b0 + b1 + b2 + b3 + b4 + b5 + b6 + b7, b8);
    lemma_holds_split(d, p, b0 + b1 + b2 + b3 + b4 + b5 + b6, b7);
    lemma_holds_split(d, p, b0 + b1 + b2 + b3 + b4 + b5, b6);
    lemma_holds_split(d, p, b0 + b1 + b2 + b3 + b4, b5);
    lemma_holds_split(d, p, b0 + b1 + b2 + b3, b4);
    lemma_holds_split(d, p, b0 + b1 + b2, b3);
    lemma_holds_split(d, p, b0 + b1, b2);
    lemma_holds_split(d, p, b0, b1);
    assert(d.subrange(p, p + 1)[0] == d[p]);
}

/// A cell that a texture of type `ttype` can hold: its name fits, its
/// sub-flags can be counted by an `i32` and name definitions of `defs`, and
/// its flags are zero where the type stores none.
pub open spec fn cell_writable(c: Option<XSprite>, x: CellExtra, ttype: i32, defs: Seq<SubFlagDefView>) -> bool {
    c matches Some(s) ==> {
        &&& string_fits(x.name)
        &&& x.subflags.len() <= i32::MAX
        &&& subflags_valid(x.subflags, defs)
        &&& !(ttype == 1 || ttype == 2 || ttype == 4) ==> s.flags == 0
    }
}

#[verifier::rlimit(60)]
proof fn lemma_cell_roundtrip(d: Seq<u8>, p: int, c: Option<XSprite>, x: CellExtra, ttype: i32, defs: Seq<SubFlagDefView>)
    requires
        holds_at(d, p, ser_cell(c, x, ttype, defs)),
        cell_writable(c, x, ttype, defs),
    ensures
        sp_cell(d, p, ttype, defs) == Ok::<(Option<XSprite>, int), (SaveError, int)>(
            (c, p + ser_cell(c, x, ttype, defs).len()),
        ),
{
    reveal(sp_cell);
    match c {
        None => {
            assert(d.subrange(p, p + 1)[0] == d[p]);
            assert(sp_bool(d, p) == Ok::<(bool, int), (SaveError, int)>((false, p + 1)));
        },
        Some(s) => {
            lemma_sprite_layout(d, p, s, x, ttype, defs);
            assert(sp_bool(d, p) == Ok::<(bool, int), (SaveError, int)>((true, p + 1)));
            lemma_string_roundtrip(d, p + 1, x.name);
            let q = p + 1 + ser_string(x.name).len();
            lemma_i32_roundtrip(d, q, s.src_rect.0);
            lemma_i32_roundtrip(d, q + 4, s.src_rect.1);
            lemma_i32_roundtrip(d, q + 8, s.src_rect.2);
            lemma_i32_roundtrip(d, q + 12, s.src_rect.3);
            lemma_u32_roundtrip(d, q + 16, s.origin.0);
            lemma_u32_roundtrip(d, q + 20, s.origin.1);
            lemma_i32_roundtrip(d, q + 24, x.subflags.len() as i32);
            lemma_subflags_roundtrip(d, q + 28, x.subflags, defs);
            let r = q + 28 + ser_subflags(x.subflags, defs).len();
            lemma_type_fields_roundtrip(d, r, ttype, s.flags, x.char_ref);
            assert((x.subflags.len() as i32) as nat == x.subflags.len());
        },
    }
}

proof fn lemma_type_fields_roundtrip(d: Seq<u8>, p: int, ttype: i32, flags: i32, char_ref: i32)
    requires
        holds_at(d, p, ser_type_fields(ttype, flags, char_ref)),
        !(ttype == 1 || ttype == 2 || ttype == 4) ==> flags == 0,
    ensures
        sp_type_flags(d, p, ttype) == Ok::<(i32, int), (SaveError, int)>(
            (flags, p + ser_type_fields(ttype, flags, char_ref).len()),
        ),
{
    if ttype == 1 {
        lemma_holds_split(d, p, le_bytes_i32(char_ref), le_bytes_i32(flags));
        lemma_i32_roundtrip(d, p, char_ref);
        lemma_i32_roundtrip(d, p + 4, flags);
    } else if ttype == 2 || ttype == 4 {
        lemma_i32_roundtrip(d, p, flags);
    }
}

pub open spec fn ser_cells(cells: Seq<Option<XSprite>>, xs: Seq<CellExtra>, ttype: i32, defs: Seq<SubFlagDefView>) -> Seq<u8>
    decreases cells.len(),
{
    if cells.len() == 0 {
        Seq::empty()
    } else {
        ser_cells(cells.drop_last(), xs.drop_last(), ttype, defs) + ser_cell(cells.last(), xs.last(), ttype, defs)
    }
}

/// The bytes of texture metadata: the texture type, the cell count, then
/// the cells, each with its skipped values.
pub open spec fn ser_xtexture(ttype: i32, cells: Seq<Option<XSprite>>, xs: Seq<CellExtra>, defs: Seq<SubFlagDefView>) -> Seq<u8> {
    le_bytes_i32(ttype) + le_bytes_i32(cells.len() as i32) + ser_cells(cells, xs, ttype, defs)
}

/// Texture metadata that can be written with the skipped values `xs`: at
/// most `i32::MAX` cells, each writable with its own skipped values.
pub open spec fn xtexture_writable(ttype: i32, cells: Seq<Option<XSprite>>, xs: Seq<CellExtra>, defs: Seq<SubFlagDefView>) -> bool {
    &&& cells.len() <= i32::MAX
    &&& xs.len() == cells.len()
    &&& forall|i: int| 0 <= i < cells.len() ==> cell_writable(#[trigger] cells[i], xs[i], ttype, defs)
}

proof fn lemma_cells_roundtrip(d: Seq<u8>, p: int, cells: Seq<Option<XSprite>>, xs: Seq<CellExtra>, ttype: i32, defs: Seq<SubFlagDefView>)
    requires
        holds_at(d, p, ser_cells(cells, xs, ttype, defs)),
        xs.len() == cells.len(),
        forall|i: int| 0 <= i < cells.len() ==> cell_writable(#[trigger] cells[i], xs[i], ttype, defs),
    ensures
        rep(cell_step(d, ttype, defs), p, cells.len()) == Ok::<(Seq<Option<XSprite>>, int), (SaveError, int)>(
            (cells, p + ser_cells(cells, xs, ttype, defs).len()),
        ),
    decreases cells.len(),
{
    if cells.len() > 0 {
        let init = cells.drop_last();
        let xinit = xs.drop_last();
        lemma_holds_split(d, p, ser_cells(init, xinit, ttype, defs), ser_cell(cells.last(), xs.last(), ttype, defs));
        assert forall|i: int| 0 <= i < init.len() implies cell_writable(#[trigger] init[i], xinit[i], ttype, defs) by {
            assert(init[i] == cells[i] && xinit[i] == xs[i]);
        }
        lemma_cells_roundtrip(d, p, init, xinit, ttype, defs);
        assert(cell_writable(cells[cells.len() - 1], xs[cells.len() - 1], ttype, defs));
        lemma_cell_roundtrip(d, p + ser_cells(init, xinit, ttype, defs).len(), cells.last(), xs.last(), ttype, defs);
        assert(init.push(cells.last()) =~= cells);
        assert(init.len() == (cells.len() - 1) as nat);
    } else {
        assert(cells =~= Seq::empty());
    }
}

/// Written texture metadata reads back as its cells, wherever it stands in
/// the input and whatever the skipped values: each sub-flag is skipped over
/// exactly the payload that its definition announces.
pub proof fn lemma_xtexture_roundtrip(
    d: Seq<u8>,
    p: int,
    ttype: i32,
    cells: Seq<Option<XSprite>>,
    xs: Seq<CellExtra>,
    defs: Seq<SubFlagDefView>,
)
    requires
        holds_at(d, p, ser_xtexture(ttype, cells, xs, defs)),
        xtexture_writable(ttype, cells, xs, defs),
    ensures
        sp_xtexture(d, p, defs) == Ok::<(Seq<Option<XSprite>>, int), (SaveError, int)>(
            (cells, p + ser_xtexture(ttype, cells, xs, defs).len()),
        ),
{
    let a = le_bytes_i32(ttype);
    let b = le_bytes_i32(cells.len() as i32);
    let c = ser_cells(cells, xs, ttype, defs);
    lemma_holds_split(d, p, a + b, c);
    lemma_holds_split(d, p, a, b);
    lemma_i32_roundtrip(d, p, ttype);
    lemma_i32_roundtrip(d, p + 4, cells.len() as i32);
    lemma_cells_roundtrip(d, p + 8, cells, xs, ttype, defs);
    assert((cells.len() as i32) as nat == cells.len());
}

/// The map built from named entries holds a name exactly when some entry
/// bears it, and then the value of the last entry bearing it.
proof fn lemma_pairs_map<V>(es: Seq<(Seq<char>, V)>, k: Seq<char>)
    ensures
        pairs_map(es).contains_key(k) <==> exists|i: int| 0 <= i < es.len() && #[trigger] es[i].0 == k,
        forall|i: int|
            0 <= i < es.len() && es[i].0 == k && (forall|j: int| i < j < es.len() ==> #[trigger] es[j].0 != k)
                ==> pairs_map(es)[k] == #[trigger] es[i].1,
    decreases es.len(),
{
    if es.len() > 0 {
        let init = es.drop_last();
        lemma_pairs_map(init, k);
        if es.last().0 != k {
            if exists|i: int| 0 <= i < es.len() && #[trigger] es[i].0 == k {
                let i = choose|i: int| 0 <= i < es.len() && #[trigger] es[i].0 == k;
                assert(init[i].0 == k);
            }
            assert forall|i: int|
                0 <= i < es.len() && es[i].0 == k && (forall|j: int| i < j < es.len() ==> #[trigger] es[j].0 != k)
                    implies pairs_map(es)[k] == #[trigger] es[i].1 by {
                assert(init[i] == es[i]);
                assert forall|j: int| i < j < init.len() implies #[trigger] init[j].0 != k by {
                    assert(init[j] == es[j]);
                }
            }
        } else {
            assert(es[es.len() - 1].0 == k);
            assert forall|i: int|
                0 <= i < es.len() && es[i].0 == k && (forall|j: int| i < j < es.len() ==> #[trigger] es[j].0 != k)
                    implies pairs_map(es)[k] == #[trigger] es[i].1 by {
                if i < es.len() - 1 {
                    assert(es[es.len() - 1].0 != k);
                }
            }
        }
    }
}

/// Reading a master bundle succeeds exactly when its entries can be read,
/// and then gives a map whose names are exactly the entry names, each with
/// the metadata of the last entry bearing it.
pub proof fn lemma_master_entries(d: Seq<u8>, defs: Seq<SubFlagDefView>)
    ensures
        sp_master(d, defs) is Ok <==> sp_master_file(d, defs) is Ok,
        sp_master_file(d, defs) matches Ok((es, _)) ==> {
            let m = sp_master(d, defs)->Ok_0;
            &&& forall|k: Seq<char>| m.contains_key(k) <==> exists|i: int| 0 <= i < es.len() && #[trigger] es[i].0 == k
            &&& forall|i: int|
                0 <= i < es.len() && (forall|j: int| i < j < es.len() ==> #[trigger] es[j].0 != es[i].0)
                    ==> m[#[trigger] es[i].0] == es[i].1
        },
{
    if let Ok((es, _)) = sp_master_file(d, defs) {
        let m = sp_master(d, defs)->Ok_0;
        assert(m == pairs_map(es));
        assert forall|k: Seq<char>| m.contains_key(k) <==> exists|i: int| 0 <= i < es.len() && #[trigger] es[i].0 == k by {
            lemma_pairs_map(es, k);
        }
        assert forall|i: int|
            0 <= i < es.len() && (forall|j: int| i < j < es.len() ==> #[trigger] es[j].0 != es[i].0)
                implies m[#[trigger] es[i].0] == es[i].1 by {
            lemma_pairs_map(es, es[i].0);
        }
    }
}

/// An entry of a master bundle as it is written: the bytes of its name,
/// then texture metadata with its skipped values.
pub struct MasterEntry {
    pub name: Seq<u8>,
    pub ttype: i32,
    pub cells: Seq<Option<XSprite>>,
    pub extras: Seq<CellExtra>,
}

pub open spec fn ser_master_entry(e: MasterEntry, defs: Seq<SubFlagDefView>) -> Seq<u8> {
    varint_bytes(e.name.len()) + e.name + ser_xtexture(e.ttype, e.cells, e.extras, defs)
}

pub open spec fn ser_master_entries(es: Seq<MasterEntry>, defs: Seq<SubFlagDefView>) -> Seq<u8>
    decreases es.len(),
{
    if es.len() == 0 {
        Seq::empty()
    } else {
        ser_master_entries(es.drop_last(), defs) + ser_master_entry(es.last(), defs)
    }
}

/// The bytes of a master bundle: the entry count, then the entries.
pub open spec fn ser_master(es: Seq<MasterEntry>, defs: Seq<SubFlagDefView>) -> Seq<u8> {
    le_bytes_i32(es.len() as i32) + ser_master_entries(es, defs)
}

/// An entry that can be written: a name of at most `i32::MAX` bytes and
/// writable texture metadata.
pub open spec fn master_entry_writable(e: MasterEntry, defs: Seq<SubFlagDefView>) -> bool {
    e.name.len() <= i32::MAX && xtexture_writable(e.ttype, e.cells, e.extras, defs)
}

/// What reading gives of a written entry: the name that
/// `String::from_utf8_lossy` makes of its bytes, and its cells.
pub open spec fn entry_read(e: MasterEntry) -> (Seq<char>, Seq<Option<XSprite>>) {
    (utf8_lossy(e.name), e.cells)
}

proof fn lemma_master_entries_roundtrip(d: Seq<u8>, p: int, es: Seq<MasterEntry>, defs: Seq<SubFlagDefView>)
    requires
        holds_at(d, p, ser_master_entries(es, defs)),
        forall|i: int| 0 <= i < es.len() ==> master_entry_writable(#[trigger] es[i], defs),
    ensures
        rep(master_step(d, defs), p, es.len()) == Ok::<(Seq<(Seq<char>, Seq<Option<XSprite>>)>, int), (SaveError, int)>(
            (es.map_values(|e: MasterEntry| entry_read(e)), p + ser_master_entries(es, defs).len()),
        ),
    decreases es.len(),
{
    if es.len() > 0 {
        let init = es.drop_last();
        let e = es.last();
        lemma_holds_split(d, p, ser_master_entries(init, defs), ser_master_entry(e, defs));
        assert forall|i: int| 0 <= i < init.len() implies master_entry_writable(#[trigger] init[i], defs) by {
            assert(init[i] == es[i]);
        }
        lemma_master_entries_roundtrip(d, p, init, defs);
        assert(master_entry_writable(es[es.len() - 1], defs));
        let q = p + ser_master_entries(init, defs).len();
        let nb = varint_bytes(e.name.len()) + e.name;
        lemma_holds_split(d, q, nb, ser_xtexture(e.ttype, e.cells, e.extras, defs));
        lemma_string_bytes_roundtrip(d, q, e.name);
        lemma_xtexture_roundtrip(d, q + nb.len(), e.ttype, e.cells, e.extras, defs);
        assert(sp_master_entry(d, q, defs) == Ok::<((Seq<char>, Seq<Option<XSprite>>), int), (SaveError, int)>(
            (entry_read(e), q + ser_master_entry(e, defs).len()),
        ));
        assert(init.map_values(|e: MasterEntry| entry_read(e)).push(entry_read(e)) =~= es.map_values(
            |e: MasterEntry| entry_read(e),
        ));
        assert(init.len() == (es.len() - 1) as nat);
    } else {
        assert(es.map_values(|e: MasterEntry| entry_read(e)) =~= Seq::empty());
    }
}

/// A written master bundle reads back as its entries, in order, each name
/// as `String::from_utf8_lossy` makes it of its bytes; with
/// [`lemma_master_entries`], each name is then present and gives the cells
/// of the last entry bearing it.
pub proof fn lemma_master_roundtrip(es: Seq<MasterEntry>, defs: Seq<SubFlagDefView>)
    requires
        es.len() <= i32::MAX,
        forall|i: int| 0 <= i < es.len() ==> master_entry_writable(#[trigger] es[i], defs),
    ensures
        sp_master_file(ser_master(es, defs), defs) == Ok::<(Seq<(Seq<char>, Seq<Option<XSprite>>)>, int), (SaveError, int)>(
            (es.map_values(|e: MasterEntry| entry_read(e)), ser_master(es, defs).len() as int),
        ),
{
    let d = ser_master(es, defs);
    let a = le_bytes_i32(es.len() as i32);
    let b = ser_master_entries(es, defs);
    assert(d.subrange(0, d.len() as int) =~= d);
    lemma_holds_split(d, 0, a, b);
    lemma_i32_roundtrip(d, 0, es.len() as i32);
    lemma_master_entries_roundtrip(d, 4, es, defs);
    assert((es.len() as i32) as nat == es.len());
}

/// Reading a written master bundle gives a map that holds the name of
/// every entry, as `String::from_utf8_lossy` makes it of its bytes, with
/// the cells of the last entry bearing that name.
pub proof fn lemma_master_written_names(es: Seq<MasterEntry>, defs: Seq<SubFlagDefView>)
    requires
        es.len() <= i32::MAX,
        forall|i: int| 0 <= i < es.len() ==> master_entry_writable(#[trigger] es[i], defs),
    ensures
        sp_master(ser_master(es, defs), defs) is Ok,
        forall|i: int| 0 <= i < es.len() ==> sp_master(ser_master(es, defs), defs)->Ok_0.contains_key(
            utf8_lossy(#[trigger] es[i].name),
        ),
        forall|i: int|
            0 <= i < es.len() && (forall|j: int| i < j < es.len() ==> utf8_lossy(#[trigger] es[j].name) != utf8_lossy(es[i].name))
                ==> sp_master(ser_master(es, defs), defs)->Ok_0[utf8_lossy(#[trigger] es[i].name)] == es[i].cells,
{
    let d = ser_master(es, defs);
    lemma_master_roundtrip(es, defs);
    lemma_master_entries(d, defs);
    let rs = es.map_values(|e: MasterEntry| entry_read(e));
    assert forall|i: int| 0 <= i < es.len() implies sp_master(d, defs)->Ok_0.contains_key(utf8_lossy(#[trigger] es[i].name)) by {
        assert(rs[i].0 == utf8_lossy(es[i].name));
    }
    assert forall|i: int|
        0 <= i < es.len() && (forall|j: int| i < j < es.len() ==> utf8_lossy(#[trigger] es[j].name) != utf8_lossy(es[i].name))
            implies sp_master(d, defs)->Ok_0[utf8_lossy(#[trigger] es[i].name)] == es[i].cells by {
        assert(rs[i] == entry_read(es[i]));
        assert forall|j: int| i < j < rs.len() implies #[trigger] rs[j].0 != rs[i].0 by {
            assert(rs[j] == entry_read(es[j]));
        }
    }
}

} // verus!
