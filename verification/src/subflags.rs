//! Sub-flag definitions: the catalog that tells how many bytes each kind of
//! sprite sub-flag takes in a texture file.
use crate::error::{DataError, SaveError};
use crate::reader::{
    agree, drop_pos, lemma_agree_below, lemma_reads_below_counted, lemma_reads_below_u32,
    lemma_reads_below_u8, outcome, reads_below, rep, sp_bool, sp_counted, sp_i32, view_result, ByteReader,
    Parsed,
};
use crate::text::lemma_reads_below_string;
use crate::text::sp_string;
use vstd::prelude::*;

verus! {

/// One sub-flag definition.
#[derive(Debug, Clone)]
pub struct SubFlagDef {
    pub name: String,
    pub has_vec: bool,
    pub has_rotation: bool,
    pub has_flip: bool,
    pub index_type0: i32,
    pub index_type1: i32,
    pub meta: i32,
    pub options: i32,
    pub item_list: Vec<(String, String)>,
}

/// The mathematical value of a [`SubFlagDef`].
pub struct SubFlagDefView {
    pub name: Seq<char>,
    pub has_vec: bool,
    pub has_rotation: bool,
    pub has_flip: bool,
    pub index_type0: i32,
    pub index_type1: i32,
    pub meta: i32,
    pub options: i32,
    pub item_list: Seq<(Seq<char>, Seq<char>)>,
}

pub open spec fn string_pair_view(p: (String, String)) -> (Seq<char>, Seq<char>) {
    (p.0@, p.1@)
}

impl View for SubFlagDef {
    type V = SubFlagDefView;

    open spec fn view(&self) -> SubFlagDefView {
        SubFlagDefView {
            name: self.name@,
            has_vec: self.has_vec,
            has_rotation: self.has_rotation,
            has_flip: self.has_flip,
            index_type0: self.index_type0,
            index_type1: self.index_type1,
            meta: self.meta,
            options: self.options,
            item_list: self.item_list@.map_values(|p: (String, String)| string_pair_view(p)),
        }
    }
}

/// The flag definitions of the game, in file order.
pub struct SubFlagDefCatalog {
    pub defs: Vec<SubFlagDef>,
}

impl View for SubFlagDefCatalog {
    type V = Seq<SubFlagDefView>;

    open spec fn view(&self) -> Seq<SubFlagDefView> {
        self.defs@.map_values(|f: SubFlagDef| f@)
    }
}

/// One item of a definition's list: two strings.
pub open spec fn sp_item(d: Seq<u8>, p: int) -> Parsed<(Seq<char>, Seq<char>)> {
    match sp_string(d, p) {
        Ok((a, q)) => match sp_string(d, q) {
            Ok((b, r)) => Ok(((a, b), r)),
            Err(e) => Err(e),
        },
        Err(e) => Err(e),
    }
}

pub open spec fn item_step(d: Seq<u8>) -> spec_fn(int, int) -> Parsed<Option<(Seq<char>, Seq<char>)>> {
    |p: int, k: int|
        match sp_item(d, p) {
            Ok((x, q)) => Ok((Some(x), q)),
            Err(e) => Err(e),
        }
}

/// One definition: name, three flags, four numbers and its item list.
#[verifier::opaque]
pub open spec fn sp_subflag_def(d: Seq<u8>, p: int) -> Parsed<SubFlagDefView> {
    match sp_string(d, p) {
        Err(e) => Err(e),
        Ok((name, p)) => match sp_bool(d, p) {
            Err(e) => Err(e),
            Ok((has_vec, p)) => match sp_bool(d, p) {
                Err(e) => Err(e),
                Ok((has_rotation, p)) => match sp_bool(d, p) {
                    Err(e) => Err(e),
                    Ok((has_flip, p)) => match sp_i32(d, p) {
                        Err(e) => Err(e),
                        Ok((index_type0, p)) => match sp_i32(d, p) {
                            Err(e) => Err(e),
                            Ok((index_type1, p)) => match sp_i32(d, p) {
                                Err(e) => Err(e),
                                Ok((meta, p)) => match sp_i32(d, p) {
                                    Err(e) => Err(e),
                                    Ok((options, p)) => match sp_i32(d, p) {
                                        Err(e) => Err(e),
                                        Ok((count, p)) => match sp_counted(count, item_step(d), p) {
                                            Err(e) => Err(e),
                                            Ok((item_list, p)) => Ok(
                                                (
                                                    SubFlagDefView {
                                                        name,
                                                        has_vec,
                                                        has_rotation,
                                                        has_flip,
                                                        index_type0,
                                                        index_type1,
                                                        meta,
                                                        options,
                                                        item_list,
                                                    },
                                                    p,
                                                ),
                                            ),
                                        },
                                    },
                                },
                            },
                        },
                    },
                },
            },
        },
    }
}

pub open spec fn def_step(d: Seq<u8>) -> spec_fn(int, int) -> Parsed<Option<SubFlagDefView>> {
    |p: int, k: int|
        match sp_subflag_def(d, p) {
            Ok((x, q)) => Ok((Some(x), q)),
            Err(e) => Err(e),
        }
}

/// A flag definition file: version 100, a count, then the definitions;
/// the position is where the last definition ends.
pub open spec fn sp_flag_defs_file(d: Seq<u8>) -> Parsed<Seq<SubFlagDefView>> {
    match sp_i32(d, 0) {
        Err(e) => Err(e),
        Ok((version, p)) => if version != 100 {
            Err((SaveError::InvalidData(DataError::FlagDefsVersion(version)), p))
        } else {
            match sp_i32(d, p) {
                Err(e) => Err(e),
                Ok((count, p)) => sp_counted(count, def_step(d), p),
            }
        },
    }
}

/// What a flag definition file holds. Bytes after the last definition are
/// not read.
pub open spec fn sp_flag_defs(d: Seq<u8>) -> Result<Seq<SubFlagDefView>, SaveError> {
    drop_pos(sp_flag_defs_file(d))
}

fn read_items(r: &mut ByteReader, count: i32) -> (res: Result<Vec<(String, String)>, SaveError>)
    ensures
        final(r).bytes() == old(r).bytes(),
        outcome(
            sp_counted(count, item_step(old(r).bytes()), old(r).at()),
            match res {
                Ok(v) => Ok(v@.map_values(|p: (String, String)| string_pair_view(p))),
                Err(e) => Err(e),
            },
            final(r).at(),
        ),
{
    if count < 0 {
        return Err(SaveError::InvalidData(DataError::NegativeCount(count)));
    }
    let ghost d = r.bytes();
    let ghost p0 = r.at();
    let ghost f = item_step(d);
    let mut items: Vec<(String, String)> = Vec::new();
    let mut i: i32 = 0;
    assert(items@.map_values(|p: (String, String)| string_pair_view(p)) =~= Seq::empty());
    while i < count
        invariant
            0 <= i <= count,
            d == old(r).bytes(),
            p0 == old(r).at(),
            r.bytes() == d,
            f == item_step(d),
            rep(f, p0, i as nat) == Ok::<(Seq<(Seq<char>, Seq<char>)>, int), (SaveError, int)>(
                (items@.map_values(|p: (String, String)| string_pair_view(p)), r.at()),
            ),
        decreases count - i,
    {
        let s0 = match r.read_string() {
            Ok(s) => s,
            Err(e) => {
                proof {
                    crate::reader::lemma_rep_err(f, p0, (i + 1) as nat, count as nat);
                }
                return Err(e);
            },
        };
        let s1 = match r.read_string() {
            Ok(s) => s,
            Err(e) => {
                proof {
                    crate::reader::lemma_rep_err(f, p0, (i + 1) as nat, count as nat);
                }
                return Err(e);
            },
        };
        let ghost before = items@;
        items.push((s0, s1));
        assert(items@.map_values(|p: (String, String)| string_pair_view(p)) =~= before.map_values(
            |p: (String, String)| string_pair_view(p),
        ).push(string_pair_view((s0, s1))));
        i = i + 1;
    }
    Ok(items)
}

impl SubFlagDef {
    /// Reads one definition at the reader's position.
    pub(crate) fn read(r: &mut ByteReader) -> (res: Result<Self, SaveError>)
        ensures
            final(r).bytes() == old(r).bytes(),
            outcome(sp_subflag_def(old(r).bytes(), old(r).at()), view_result(res), final(r).at()),
    {
        reveal(sp_subflag_def);
        let name = r.read_string()?;
        let has_vec = r.read_bool()?;
        let has_rotation = r.read_bool()?;
        let has_flip = r.read_bool()?;
        let index_type0 = r.read_i32()?;
        let index_type1 = r.read_i32()?;
        let meta = r.read_i32()?;
        let options = r.read_i32()?;
        let item_count = r.read_i32()?;
        let item_list = read_items(r, item_count)?;
        Ok(SubFlagDef {
            name,
            has_vec,
            has_rotation,
            has_flip,
            index_type0,
            index_type1,
            meta,
            options,
            item_list,
        })
    }
}

impl SubFlagDefCatalog {
    /// Parses the bytes of a flag definition file: an `i32` version that
    /// must be 100, an `i32` count, then that many definitions.
    pub fn load_from_bytes(data: &[u8]) -> (res: Result<Self, SaveError>)
        ensures
            view_result(res) == sp_flag_defs(data@),
    {
        let mut r = ByteReader::new(data);
        let version = r.read_i32()?;
        if version != 100 {
            return Err(SaveError::InvalidData(DataError::FlagDefsVersion(version)));
        }
        let count = r.read_i32()?;
        if count < 0 {
            return Err(SaveError::InvalidData(DataError::NegativeCount(count)));
        }
        let ghost d = data@;
        let ghost p0 = r.at();
        let ghost f = def_step(d);
        let mut defs: Vec<SubFlagDef> = Vec::new();
        let mut i: i32 = 0;
        assert(defs@.map_values(|x: SubFlagDef| x@) =~= Seq::empty());
        let ghost whole = match rep(f, p0, count as nat) {
            Ok((defs, _)) => Ok(defs),
            Err((e, _)) => Err(e),
        };
        assert(sp_flag_defs(d) == whole);
        while i < count
            invariant
                0 <= i <= count,
                d == data@,
                sp_flag_defs(d) == whole,
                whole == match rep(f, p0, count as nat) {
                    Ok((defs, _)) => Ok(defs),
                    Err((e, _)) => Err::<Seq<SubFlagDefView>, SaveError>(e),
                },
                r.bytes() == d,
                f == def_step(d),
                rep(f, p0, i as nat) == Ok::<(Seq<SubFlagDefView>, int), (SaveError, int)>(
                    (defs@.map_values(|x: SubFlagDef| x@), r.at()),
                ),
            decreases count - i,
        {
            let def = match SubFlagDef::read(&mut r) {
                Ok(x) => x,
                Err(e) => {
                    proof {
                        crate::reader::lemma_rep_err(f, p0, (i + 1) as nat, count as nat);
                    }
                    return Err(e);
                },
            };
            let ghost before = defs@;
            defs.push(def);
            assert(defs@.map_values(|x: SubFlagDef| x@) =~= before.map_values(|x: SubFlagDef| x@).push(def@));
            i = i + 1;
        }
        Ok(SubFlagDefCatalog { defs })
    }
}

proof fn lemma_reads_below_def(d: Seq<u8>, d2: Seq<u8>)
    ensures
        forall|p: int| reads_below(#[trigger] sp_subflag_def(d, p), sp_subflag_def(d2, p), p, d, d2),
{
    broadcast use lemma_agree_below;

    lemma_reads_below_u8(d, d2);
    lemma_reads_below_u32(d, d2);
    lemma_reads_below_string(d, d2);
    assert forall|q: int, k: int| reads_below(#[trigger] item_step(d)(q, k), item_step(d2)(q, k), q, d, d2) by {
        if let Ok((_, r)) = sp_string(d, q) {
            assert(reads_below(sp_string(d, r), sp_string(d2, r), r, d, d2));
        }
    }
    assert forall|p: int| reads_below(#[trigger] sp_subflag_def(d, p), sp_subflag_def(d2, p), p, d, d2) by {
        reveal(sp_subflag_def);
        if sp_subflag_def(d, p) is Ok {
            let p1 = sp_string(d, p)->Ok_0.1;
            let p2 = sp_bool(d, p1)->Ok_0.1;
            let p3 = sp_bool(d, p2)->Ok_0.1;
            let p4 = sp_bool(d, p3)->Ok_0.1;
            let p5 = sp_i32(d, p4)->Ok_0.1;
            let p6 = sp_i32(d, p5)->Ok_0.1;
            let p7 = sp_i32(d, p6)->Ok_0.1;
            let p8 = sp_i32(d, p7)->Ok_0.1;
            let (count, p9) = sp_i32(d, p8)->Ok_0;
            lemma_reads_below_counted(count, item_step(d), item_step(d2), p9, d, d2);
        }
    }
}

/// A flag definition file is read only up to the end of its last
/// definition: bytes after it change nothing, and the file cut anywhere
/// before that end is refused.
pub proof fn lemma_flag_defs_reads_below(d: Seq<u8>, d2: Seq<u8>)
    ensures
        reads_below(sp_flag_defs_file(d), sp_flag_defs_file(d2), 0, d, d2),
{
    broadcast use lemma_agree_below;

    lemma_reads_below_u32(d, d2);
    lemma_reads_below_def(d, d2);
    assert forall|q: int, k: int| reads_below(#[trigger] def_step(d)(q, k), def_step(d2)(q, k), q, d, d2) by {
        assert(reads_below(sp_subflag_def(d, q), sp_subflag_def(d2, q), q, d, d2));
    }
    if sp_flag_defs_file(d) is Ok {
        let (count, p) = sp_i32(d, 4)->Ok_0;
        lemma_reads_below_counted(count, def_step(d), def_step(d2), p, d, d2);
    }
}

/// Bytes after the last definition of a flag definition file never change
/// what is read, and the file cut anywhere before the end of its last
/// definition is refused.
pub proof fn lemma_flag_defs_trailing_and_cut(d: Seq<u8>, extra: Seq<u8>, k: int)
    requires
        0 <= k <= d.len(),
    ensures
        sp_flag_defs(d) is Ok ==> sp_flag_defs(d + extra) == sp_flag_defs(d),
        sp_flag_defs_file(d) matches Ok((_, m)) && k < m ==> sp_flag_defs(d.take(k)) is Err,
{
    lemma_flag_defs_reads_below(d, d + extra);
    lemma_flag_defs_reads_below(d, d.take(k));
    crate::reader::lemma_reads_below_extend_take(sp_flag_defs_file(d), sp_flag_defs_file(d + extra), sp_flag_defs_file(d.take(k)), 0, d, extra, k);
}

} // verus!
