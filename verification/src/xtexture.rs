//! Texture metadata: the sprite cells of a texture, read from a standalone
//! texture file or from every entry of a master bundle.
use crate::error::{DataError, SaveError};
use crate::name_map::NameMap;
use crate::reader::{
    agree, discard, lemma_agree_below, lemma_reads_below_counted, lemma_reads_below_rep,
    lemma_reads_below_u32, lemma_reads_below_u8, lemma_rep_all, lemma_rep_err, lemma_rep_exact, outcome,
    reads_below, rep, sp_bool, sp_counted, sp_i32, sp_u32, view_result, ByteReader, Parsed,
};
use crate::subflags::{SubFlagDefCatalog, SubFlagDefView};
use crate::text::{lemma_reads_below_string, sp_string, sp_string_lossy};
use vstd::prelude::*;

verus! {

/// A sprite cell: its source rectangle, its origin and its flags. The
/// origin, stored as two `f32`, is kept as their bit patterns.
#[derive(Debug, Clone, Copy)]
pub struct XSprite {
    /// x, y, width, height.
    pub src_rect: (i32, i32, i32, i32),
    /// Bits of the pivot point in source space.
    pub origin: (u32, u32),
    /// Clothing index (0 where the texture type stores none).
    pub flags: i32,
}

/// The cells of a texture; an absent cell is `None`.
#[derive(Debug, Clone)]
pub struct XTextureMeta {
    pub cells: Vec<Option<XSprite>>,
}

impl View for XTextureMeta {
    type V = Seq<Option<XSprite>>;

    open spec fn view(&self) -> Seq<Option<XSprite>> {
        self.cells@
    }
}

/// The number of bytes a sub-flag of definition `def` stores after its
/// definition index: two `f32` for a vector, one `f32` for a rotation, one
/// byte for a flip, and one `i32` for each positive index type and for
/// positive options.
pub open spec fn subflag_payload_len(def: SubFlagDefView) -> int {
    (if def.has_vec { 8int } else { 0int }) + (if def.has_rotation { 4int } else { 0int }) + (
    if def.has_flip { 1int } else { 0int }) + (if def.index_type0 > 0 { 4int } else { 0int }) + (
    if def.index_type1 > 0 { 4int } else { 0int }) + (if def.options > 0 { 4int } else { 0int })
}

/// A sub-flag, skipped: its definition index must name one of `defs`, and
/// the payload that definition announces must be present.
pub open spec fn sp_skip_subflag(d: Seq<u8>, p: int, defs: Seq<SubFlagDefView>) -> Parsed<()> {
    match sp_i32(d, p) {
        Err(e) => Err(e),
        Ok((index, q)) => if index < 0 || index >= defs.len() {
            Err((SaveError::InvalidData(DataError::FlagDefIndex { index, max: defs.len() as usize }), q))
        } else if q + subflag_payload_len(defs[index as int]) <= d.len() {
            Ok(((), q + subflag_payload_len(defs[index as int])))
        } else {
            Err((SaveError::UnexpectedEof, d.len() as int))
        },
    }
}

pub open spec fn subflag_step(d: Seq<u8>, defs: Seq<SubFlagDefView>) -> spec_fn(int, int) -> Parsed<Option<()>> {
    |p: int, k: int|
        match sp_skip_subflag(d, p, defs) {
            Ok((_, q)) => Ok((None, q)),
            Err(e) => Err(e),
        }
}

/// Texture types whose cells store flags.
pub open spec fn stores_flags(ttype: i32) -> bool {
    ttype == 1 || ttype == 2 || ttype == 4
}

/// The per-cell fields that a texture type adds: for type 1 a character
/// reference (skipped) then the flags, for types 2 and 4 the flags, for any
/// other type nothing (flags 0).
pub open spec fn sp_type_flags(d: Seq<u8>, p: int, ttype: i32) -> Parsed<i32> {
    if ttype == 1 {
        match sp_i32(d, p) {
            Err(e) => Err(e),
            Ok((_char_ref, p)) => sp_i32(d, p),
        }
    } else if ttype == 2 || ttype == 4 {
        sp_i32(d, p)
    } else {
        Ok((0, p))
    }
}

/// A cell: a presence byte; where it is non-zero, a name (strict UTF-8,
/// skipped), the source rectangle, the origin, a count of sub-flags (none
/// where negative) and the sub-flags, skipped, then the type's fields.
#[verifier::opaque]
pub open spec fn sp_cell(d: Seq<u8>, p: int, ttype: i32, defs: Seq<SubFlagDefView>) -> Parsed<Option<XSprite>> {
    match sp_bool(d, p) {
        Err(e) => Err(e),
        Ok((exists, p)) => if !exists {
            Ok((None, p))
        } else {
            match sp_string(d, p) {
                Err(e) => Err(e),
                Ok((_name, p)) => match sp_i32(d, p) {
                    Err(e) => Err(e),
                    Ok((x, p)) => match sp_i32(d, p) {
                        Err(e) => Err(e),
                        Ok((y, p)) => match sp_i32(d, p) {
                            Err(e) => Err(e),
                            Ok((w, p)) => match sp_i32(d, p) {
                                Err(e) => Err(e),
                                Ok((h, p)) => match sp_u32(d, p) {
                                    Err(e) => Err(e),
                                    Ok((ox, p)) => match sp_u32(d, p) {
                                        Err(e) => Err(e),
                                        Ok((oy, p)) => match sp_i32(d, p) {
                                            Err(e) => Err(e),
                                            Ok((count, p)) => match rep(
                                                subflag_step(d, defs),
                                                p,
                                                if count < 0 { 0nat } else { count as nat },
                                            ) {
                                                Err(e) => Err(e),
                                                Ok((_, p)) => match sp_type_flags(d, p, ttype) {
                                                    Err(e) => Err(e),
                                                    Ok((flags, p)) => Ok(
                                                        (
                                                            Some(
                                                                XSprite {
                                                                    src_rect: (x, y, w, h),
                                                                    origin: (ox, oy),
                                                                    flags,
                                                                },
                                                            ),
                                                            p,
                                                        ),
                                                    ),
                                                },
                                            },
                                        },
                                    },
                                },
                            },
                        },
                    },
                },
            }
        },
    }
}

pub open spec fn cell_step(d: Seq<u8>, ttype: i32, defs: Seq<SubFlagDefView>) -> spec_fn(int, int) -> Parsed<Option<Option<XSprite>>> {
    |p: int, k: int|
        match sp_cell(d, p, ttype, defs) {
            Ok((c, q)) => Ok((Some(c), q)),
            Err(e) => Err(e),
        }
}

/// Texture metadata at `p`: the texture type, a cell count, then the cells.
pub open spec fn sp_xtexture(d: Seq<u8>, p: int, defs: Seq<SubFlagDefView>) -> Parsed<Seq<Option<XSprite>>> {
    match sp_i32(d, p) {
        Err(e) => Err(e),
        Ok((ttype, p)) => match sp_i32(d, p) {
            Err(e) => Err(e),
            Ok((count, p)) => sp_counted(count, cell_step(d, ttype, defs), p),
        },
    }
}

/// A master bundle entry: a name (invalid UTF-8 replaced), then metadata.
pub open spec fn sp_master_entry(d: Seq<u8>, p: int, defs: Seq<SubFlagDefView>) -> Parsed<(Seq<char>, Seq<Option<XSprite>>)> {
    match sp_string_lossy(d, p) {
        Err(e) => Err(e),
        Ok((name, p)) => match sp_xtexture(d, p, defs) {
            Err(e) => Err(e),
            Ok((meta, p)) => Ok(((name, meta), p)),
        },
    }
}

pub open spec fn master_step(d: Seq<u8>, defs: Seq<SubFlagDefView>) -> spec_fn(int, int) -> Parsed<Option<(Seq<char>, Seq<Option<XSprite>>)>> {
    |p: int, k: int|
        match sp_master_entry(d, p, defs) {
            Ok((x, q)) => Ok((Some(x), q)),
            Err(e) => Err(e),
        }
}

/// The map that a list of named entries builds, later ones replacing
/// earlier ones of the same name.
pub open spec fn pairs_map<V>(s: Seq<(Seq<char>, V)>) -> Map<Seq<char>, V>
    decreases s.len(),
{
    if s.len() == 0 {
        Map::empty()
    } else {
        pairs_map(s.drop_last()).insert(s.last().0, s.last().1)
    }
}

/// A master bundle: a count, then the entries; the position is where the
/// last entry ends.
pub open spec fn sp_master_file(d: Seq<u8>, defs: Seq<SubFlagDefView>) -> Parsed<Seq<(Seq<char>, Seq<Option<XSprite>>)>> {
    match sp_i32(d, 0) {
        Err(e) => Err(e),
        Ok((count, p)) => sp_counted(count, master_step(d, defs), p),
    }
}

/// What a master bundle holds: each name with the last metadata stored
/// under it. Bytes after the last entry are not read.
pub open spec fn sp_master(d: Seq<u8>, defs: Seq<SubFlagDefView>) -> Result<Map<Seq<char>, Seq<Option<XSprite>>>, SaveError> {
    match sp_master_file(d, defs) {
        Err((e, _)) => Err(e),
        Ok((entries, _)) => Ok(pairs_map(entries)),
    }
}

/// Skips one sub-flag whose layout `catalog` describes.
fn skip_subflag(r: &mut ByteReader, catalog: &SubFlagDefCatalog) -> (res: Result<(), SaveError>)
    ensures
        final(r).bytes() == old(r).bytes(),
        outcome(sp_skip_subflag(old(r).bytes(), old(r).at(), catalog@), res, final(r).at()),
{
    let index = r.read_i32()?;
    if index < 0 || index as usize >= catalog.defs.len() {
        return Err(SaveError::InvalidData(DataError::FlagDefIndex { index, max: catalog.defs.len() }));
    }
    let def = &catalog.defs[index as usize];
    assert(def@ == catalog@[index as int]);
    if def.has_vec {
        r.read_u32()?;
        r.read_u32()?;
    }
    if def.has_rotation {
        r.read_u32()?;
    }
    if def.has_flip {
        r.read_u8()?;
    }
    if def.index_type0 > 0 {
        r.read_i32()?;
    }
    if def.index_type1 > 0 {
        r.read_i32()?;
    }
    if def.options > 0 {
        r.read_i32()?;
    }
    Ok(())
}

fn skip_subflags(r: &mut ByteReader, count: i32, catalog: &SubFlagDefCatalog) -> (res: Result<(), SaveError>)
    ensures
        final(r).bytes() == old(r).bytes(),
        outcome(
            discard(rep(subflag_step(old(r).bytes(), catalog@), old(r).at(), if count < 0 { 0nat } else { count as nat })),
            res,
            final(r).at(),
        ),
{
    let ghost d = r.bytes();
    let ghost p0 = r.at();
    let ghost f = subflag_step(d, catalog@);
    let ghost n: nat = if count < 0 { 0nat } else { count as nat };
    let mut i: i32 = 0;
    assert(rep(f, p0, 0) == Ok::<(Seq<()>, int), (SaveError, int)>((Seq::empty(), p0)));
    while i < count
        invariant
            0 <= i,
            count >= 0 ==> i <= count,
            count < 0 ==> i == 0,
            n == (if count < 0 { 0nat } else { count as nat }),
            d == old(r).bytes(),
            p0 == old(r).at(),
            r.bytes() == d,
            f == subflag_step(d, catalog@),
            rep(f, p0, i as nat) == Ok::<(Seq<()>, int), (SaveError, int)>((Seq::empty(), r.at())),
        decreases count - i,
    {
        match skip_subflag(r, catalog) {
            Ok(()) => {},
            Err(e) => {
                proof {
                    lemma_rep_err(f, p0, (i + 1) as nat, n);
                }
                return Err(e);
            },
        }
        i = i + 1;
    }
    assert(i as nat == n);
    Ok(())
}

fn read_type_flags(r: &mut ByteReader, ttype: i32) -> (res: Result<i32, SaveError>)
    ensures
        final(r).bytes() == old(r).bytes(),
        outcome(sp_type_flags(old(r).bytes(), old(r).at(), ttype), res, final(r).at()),
{
    if ttype == 1 {
        let _char_ref = r.read_i32()?;
        r.read_i32()
    } else if ttype == 2 || ttype == 4 {
        r.read_i32()
    } else {
        Ok(0)
    }
}

fn read_cell(r: &mut ByteReader, ttype: i32, catalog: &SubFlagDefCatalog) -> (res: Result<Option<XSprite>, SaveError>)
    ensures
        final(r).bytes() == old(r).bytes(),
        outcome(sp_cell(old(r).bytes(), old(r).at(), ttype, catalog@), res, final(r).at()),
{
    reveal(sp_cell);
    let exists = r.read_bool()?;
    if !exists {
        return Ok(None);
    }
    let _name = r.read_string()?;
    let src_x = r.read_i32()?;
    let src_y = r.read_i32()?;
    let src_w = r.read_i32()?;
    let src_h = r.read_i32()?;
    let origin_x = r.read_u32()?;
    let origin_y = r.read_u32()?;
    let count = r.read_i32()?;
    skip_subflags(r, count, catalog)?;
    let flags = read_type_flags(r, ttype)?;
    Ok(Some(XSprite { src_rect: (src_x, src_y, src_w, src_h), origin: (origin_x, origin_y), flags }))
}

impl XTextureMeta {
    /// Reads texture metadata at the reader's position.
    fn read_from_reader(r: &mut ByteReader, flag_defs: &SubFlagDefCatalog) -> (res: Result<Self, SaveError>)
        ensures
            final(r).bytes() == old(r).bytes(),
            outcome(sp_xtexture(old(r).bytes(), old(r).at(), flag_defs@), view_result(res), final(r).at()),
    {
        let ttype = r.read_i32()?;
        let count = r.read_i32()?;
        if count < 0 {
            return Err(SaveError::InvalidData(DataError::NegativeCount(count)));
        }
        let ghost d = r.bytes();
        let ghost p0 = r.at();
        let ghost f = cell_step(d, ttype, flag_defs@);
        let mut cells: Vec<Option<XSprite>> = Vec::new();
        let mut i: i32 = 0;
        while i < count
            invariant
                0 <= i <= count,
                d == old(r).bytes(),
                sp_xtexture(d, old(r).at(), flag_defs@) == sp_counted(count, f, p0),
                r.bytes() == d,
                f == cell_step(d, ttype, flag_defs@),
                rep(f, p0, i as nat) == Ok::<(Seq<Option<XSprite>>, int), (SaveError, int)>((cells@, r.at())),
            decreases count - i,
        {
            let c = match read_cell(r, ttype, flag_defs) {
                Ok(c) => c,
                Err(e) => {
                    proof {
                        lemma_rep_err(f, p0, (i + 1) as nat, count as nat);
                    }
                    return Err(e);
                },
            };
            cells.push(c);
            i = i + 1;
        }
        Ok(XTextureMeta { cells })
    }

    /// Parses the bytes of a standalone texture file (names in strict UTF-8).
    pub fn load_from_bytes(data: &[u8], flag_defs: &SubFlagDefCatalog) -> (res: Result<Self, SaveError>)
        ensures
            view_result(res) == match sp_xtexture(data@, 0, flag_defs@) {
                Ok((cells, _)) => Ok(cells),
                Err((e, _)) => Err::<Seq<Option<XSprite>>, SaveError>(e),
            },
    {
        let mut r = ByteReader::new(data);
        Self::read_from_reader(&mut r, flag_defs)
    }

    /// Parses the bytes of a master bundle: a count, then named texture
    /// metadata entries, whose names have invalid UTF-8 replaced. A name
    /// that occurs again replaces the earlier entry.
    pub fn load_all_from_master_bytes(data: &[u8], flag_defs: &SubFlagDefCatalog) -> (res: Result<NameMap<XTextureMeta>, SaveError>)
        ensures
            view_result(res) == sp_master(data@, flag_defs@),
    {
        let mut r = ByteReader::new(data);
        let count = r.read_i32()?;
        if count < 0 {
            return Err(SaveError::InvalidData(DataError::NegativeCount(count)));
        }
        let ghost d = data@;
        let ghost p0 = r.at();
        let ghost f = master_step(d, flag_defs@);
        let ghost whole = match rep(f, p0, count as nat) {
            Ok((entries, _)) => Ok(pairs_map(entries)),
            Err((e, _)) => Err(e),
        };
        assert(sp_master(d, flag_defs@) == whole);
        let mut map: NameMap<XTextureMeta> = NameMap::new();
        let ghost mut entries: Seq<(Seq<char>, Seq<Option<XSprite>>)> = Seq::empty();
        let mut i: i32 = 0;
        while i < count
            invariant
                0 <= i <= count,
                d == data@,
                sp_master(d, flag_defs@) == whole,
                whole == match rep(f, p0, count as nat) {
                    Ok((entries, _)) => Ok(pairs_map(entries)),
                    Err((e, _)) => Err::<Map<Seq<char>, Seq<Option<XSprite>>>, SaveError>(e),
                },
                r.bytes() == d,
                f == master_step(d, flag_defs@),
                rep(f, p0, i as nat) == Ok::<(Seq<(Seq<char>, Seq<Option<XSprite>>)>, int), (SaveError, int)>(
                    (entries, r.at()),
                ),
                map@ == pairs_map(entries),
            decreases count - i,
        {
            let name = match r.read_string_lossy() {
                Ok(x) => x,
                Err(e) => {
                    proof {
                        lemma_rep_err(f, p0, (i + 1) as nat, count as nat);
                    }
                    return Err(e);
                },
            };
            let meta = match Self::read_from_reader(&mut r, flag_defs) {
                Ok(x) => x,
                Err(e) => {
                    proof {
                        lemma_rep_err(f, p0, (i + 1) as nat, count as nat);
                    }
                    return Err(e);
                },
            };
            let ghost before = entries;
            proof {
                entries = entries.push((name@, meta@));
                assert(entries.drop_last() =~= before);
            }
            map.insert(name, meta);
            i = i + 1;
        }
        Ok(map)
    }
}

/// Texture metadata read from bytes has one entry for each cell that its
/// header counts, and where the texture type stores no flags (any type but
/// 1, 2 and 4), every present cell has flags 0.
pub proof fn lemma_xtexture_cells(d: Seq<u8>, p: int, defs: Seq<SubFlagDefView>)
    ensures
        sp_xtexture(d, p, defs) matches Ok((cells, _)) ==> {
            &&& sp_i32(d, p + 4) matches Ok((count, _)) && cells.len() == count
            &&& match sp_i32(d, p) {
                Ok((ttype, _)) => !stores_flags(ttype) ==> forall|i: int|
                    0 <= i < cells.len() ==> (#[trigger] cells[i] matches Some(c) ==> c.flags == 0),
                Err(_) => true,
            }
        },
{
    if let Ok((ttype, p1)) = sp_i32(d, p) {
        if let Ok((count, p2)) = sp_i32(d, p1) {
            let f = cell_step(d, ttype, defs);
            let no_flags = |c: Option<XSprite>| (c matches Some(x) ==> x.flags == 0);
            lemma_rep_exact(f, p2, count as nat);
            if !(ttype == 1 || ttype == 2 || ttype == 4) {
                assert forall|q: int, k: int| #[trigger] f(q, k) matches Ok((Some(c), _)) ==> no_flags(c) by {
                    reveal(sp_cell);
                }
                lemma_rep_all(f, p2, count as nat, no_flags);
            }
        }
    }
}

proof fn lemma_reads_below_cell(d: Seq<u8>, d2: Seq<u8>, defs: Seq<SubFlagDefView>)
    ensures
        forall|q: int, k: int, t: i32| reads_below(#[trigger] cell_step(d, t, defs)(q, k), cell_step(d2, t, defs)(q, k), q, d, d2),
{
    broadcast use lemma_agree_below;

    lemma_reads_below_u8(d, d2);
    lemma_reads_below_u32(d, d2);
    lemma_reads_below_string(d, d2);
    assert forall|q: int, k: int| reads_below(#[trigger] subflag_step(d, defs)(q, k), subflag_step(d2, defs)(q, k), q, d, d2) by {
        assert(reads_below(sp_i32(d, q), sp_i32(d2, q), q, d, d2));
    }
    assert forall|p: int, t: i32| 0 <= p <= d.len() implies reads_below(#[trigger] sp_type_flags(d, p, t), sp_type_flags(d2, p, t), p, d, d2) by {
        if t == 1 && sp_type_flags(d, p, t) is Ok {
            let p1 = sp_i32(d, p)->Ok_0.1;
            assert(reads_below(sp_i32(d, p1), sp_i32(d2, p1), p1, d, d2));
        }
    }
    assert forall|q: int, k: int, t: i32| reads_below(#[trigger] cell_step(d, t, defs)(q, k), cell_step(d2, t, defs)(q, k), q, d, d2) by {
        reveal(sp_cell);
        if sp_cell(d, q, t, defs) is Ok {
            let (exists, p1) = sp_bool(d, q)->Ok_0;
            if exists {
                let p2 = sp_string(d, p1)->Ok_0.1;
                let p3 = sp_i32(d, p2)->Ok_0.1;
                let p4 = sp_i32(d, p3)->Ok_0.1;
                let p5 = sp_i32(d, p4)->Ok_0.1;
                let p6 = sp_i32(d, p5)->Ok_0.1;
                let p7 = sp_u32(d, p6)->Ok_0.1;
                let p8 = sp_u32(d, p7)->Ok_0.1;
                let (count, p9) = sp_i32(d, p8)->Ok_0;
                let n: nat = if count < 0 { 0nat } else { count as nat };
                lemma_reads_below_rep(subflag_step(d, defs), subflag_step(d2, defs), p9, n, d, d2);
                let p10 = rep(subflag_step(d, defs), p9, n)->Ok_0.1;
                assert(reads_below(sp_type_flags(d, p10, t), sp_type_flags(d2, p10, t), p10, d, d2));
            }
        }
    }
}

/// Texture metadata is read only up to the end of its last cell: bytes
/// after it change nothing, and the metadata cut anywhere before that end
/// is refused.
pub proof fn lemma_xtexture_reads_below(d: Seq<u8>, d2: Seq<u8>, p: int, defs: Seq<SubFlagDefView>)
    ensures
        reads_below(sp_xtexture(d, p, defs), sp_xtexture(d2, p, defs), p, d, d2),
{
    broadcast use lemma_agree_below;

    lemma_reads_below_u32(d, d2);
    lemma_reads_below_cell(d, d2, defs);
    if sp_xtexture(d, p, defs) is Ok {
        let (t, p1) = sp_i32(d, p)->Ok_0;
        let (count, p2) = sp_i32(d, p1)->Ok_0;
        lemma_reads_below_counted(count, cell_step(d, t, defs), cell_step(d2, t, defs), p2, d, d2);
    }
}

/// A master bundle is read only up to the end of its last entry: bytes
/// after it change nothing, and the bundle cut anywhere before that end is
/// refused.
pub proof fn lemma_master_reads_below(d: Seq<u8>, d2: Seq<u8>, defs: Seq<SubFlagDefView>)
    ensures
        reads_below(sp_master_file(d, defs), sp_master_file(d2, defs), 0, d, d2),
{
    broadcast use lemma_agree_below;

    lemma_reads_below_u32(d, d2);
    lemma_reads_below_string(d, d2);
    assert forall|q: int, k: int| reads_below(#[trigger] master_step(d, defs)(q, k), master_step(d2, defs)(q, k), q, d, d2) by {
        assert(reads_below(sp_string_lossy(d, q), sp_string_lossy(d2, q), q, d, d2));
        if let Ok((_, q1)) = sp_string_lossy(d, q) {
            lemma_xtexture_reads_below(d, d2, q1, defs);
        }
    }
    if sp_master_file(d, defs) is Ok {
        let (count, p) = sp_i32(d, 0)->Ok_0;
        lemma_reads_below_counted(count, master_step(d, defs), master_step(d2, defs), p, d, d2);
    }
}

/// Bytes after the last cell of a texture file, or after the last entry of
/// a master bundle, never change what is read, and either file cut anywhere
/// before that end is refused.
pub proof fn lemma_texture_trailing_and_cut(d: Seq<u8>, extra: Seq<u8>, k: int, defs: Seq<SubFlagDefView>)
    requires
        0 <= k <= d.len(),
    ensures
        sp_xtexture(d, 0, defs) is Ok ==> sp_xtexture(d + extra, 0, defs) == sp_xtexture(d, 0, defs),
        sp_xtexture(d, 0, defs) matches Ok((_, m)) && k < m ==> sp_xtexture(d.take(k), 0, defs) is Err,
        sp_master(d, defs) is Ok ==> sp_master(d + extra, defs) == sp_master(d, defs),
        sp_master_file(d, defs) matches Ok((_, m)) && k < m ==> sp_master(d.take(k), defs) is Err,
{
    lemma_xtexture_reads_below(d, d + extra, 0, defs);
    lemma_xtexture_reads_below(d, d.take(k), 0, defs);
    crate::reader::lemma_reads_below_extend_take(sp_xtexture(d, 0, defs), sp_xtexture(d + extra, 0, defs), sp_xtexture(d.take(k), 0, defs), 0, d, extra, k);
    lemma_master_reads_below(d, d + extra, defs);
    lemma_master_reads_below(d, d.take(k), defs);
    crate::reader::lemma_reads_below_extend_take(sp_master_file(d, defs), sp_master_file(d + extra, defs), sp_master_file(d.take(k), defs), 0, d, extra, k);
}

} // verus!
