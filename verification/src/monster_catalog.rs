//! The monster catalog: every monster definition of the game, read from and
//! written back to its binary form.
use crate::error::{DataError, SaveError};
use crate::le::{le_bytes_i32, le_bytes_u32, push_i32_le, push_u32_le};
use crate::name_map::NameMap;
use crate::reader::{
    lemma_rep_err, outcome, rep, sp_counted, sp_i32, sp_u32, view_result, ByteReader, Parsed,
};
use crate::text::{ser_string, sp_string, string_fits, write_string};
use vstd::prelude::*;

verus! {

/// The payload of a monster field. A float is kept as its IEEE-754 bit
/// pattern (`f32::to_bits`).
#[derive(Debug, Clone)]
pub enum MonsterFieldValue {
    Float(u32),
    Int(i32),
    String(String),
}

/// One typed field of a monster.
#[derive(Debug, Clone)]
pub struct MonsterField {
    pub id: i32,
    pub data_type: i32,
    pub value: MonsterFieldValue,
}

/// One monster definition.
#[derive(Debug, Clone)]
pub struct MonsterDef {
    pub name: String,
    /// Exactly 20 in a file.
    pub titles: Vec<String>,
    /// Exactly 20 in a file.
    pub descriptions: Vec<String>,
    pub type_: i32,
    pub sub_type: i32,
    /// Bits of the cost, an `f32`.
    pub cost: u32,
    pub img: i32,
    pub alt_img: i32,
    pub texture: String,
    pub def: String,
    pub box_width: i32,
    pub box_height: i32,
    pub box_sub_height: i32,
    pub shadow_width: i32,
    pub shadow_height: i32,
    pub fields: Vec<MonsterField>,
    pub flags: Vec<i32>,
}

/// All monsters, and for each name the index of the last monster bearing it.
#[derive(Debug, Clone)]
pub struct MonsterCatalog {
    pub monsters: Vec<MonsterDef>,
    pub by_name: NameMap<i32>,
}

pub enum MonsterFieldValueView {
    Float(u32),
    Int(i32),
    String(Seq<char>),
}

pub struct MonsterFieldView {
    pub id: i32,
    pub data_type: i32,
    pub value: MonsterFieldValueView,
}

pub struct MonsterDefView {
    pub name: Seq<char>,
    pub titles: Seq<Seq<char>>,
    pub descriptions: Seq<Seq<char>>,
    pub type_: i32,
    pub sub_type: i32,
    pub cost: u32,
    pub img: i32,
    pub alt_img: i32,
    pub texture: Seq<char>,
    pub def: Seq<char>,
    pub box_width: i32,
    pub box_height: i32,
    pub box_sub_height: i32,
    pub shadow_width: i32,
    pub shadow_height: i32,
    pub fields: Seq<MonsterFieldView>,
    pub flags: Seq<i32>,
}

pub struct MonsterCatalogView {
    pub monsters: Seq<MonsterDefView>,
    pub by_name: Map<Seq<char>, i32>,
}

impl View for MonsterFieldValue {
    type V = MonsterFieldValueView;

    open spec fn view(&self) -> MonsterFieldValueView {
        match self {
            MonsterFieldValue::Float(b) => MonsterFieldValueView::Float(*b),
            MonsterFieldValue::Int(i) => MonsterFieldValueView::Int(*i),
            MonsterFieldValue::String(s) => MonsterFieldValueView::String(s@),
        }
    }
}

impl View for MonsterField {
    type V = MonsterFieldView;

    open spec fn view(&self) -> MonsterFieldView {
        MonsterFieldView { id: self.id, data_type: self.data_type, value: self.value@ }
    }
}

pub open spec fn strings_view(v: Seq<String>) -> Seq<Seq<char>> {
    v.map_values(|s: String| s@)
}

pub open spec fn fields_view(v: Seq<MonsterField>) -> Seq<MonsterFieldView> {
    v.map_values(|f: MonsterField| f@)
}

impl View for MonsterDef {
    type V = MonsterDefView;

    open spec fn view(&self) -> MonsterDefView {
        MonsterDefView {
            name: self.name@,
            titles: strings_view(self.titles@),
            descriptions: strings_view(self.descriptions@),
            type_: self.type_,
            sub_type: self.sub_type,
            cost: self.cost,
            img: self.img,
            alt_img: self.alt_img,
            texture: self.texture@,
            def: self.def@,
            box_width: self.box_width,
            box_height: self.box_height,
            box_sub_height: self.box_sub_height,
            shadow_width: self.shadow_width,
            shadow_height: self.shadow_height,
            fields: fields_view(self.fields@),
            flags: self.flags@,
        }
    }
}

pub open spec fn monsters_view(v: Seq<MonsterDef>) -> Seq<MonsterDefView> {
    v.map_values(|m: MonsterDef| m@)
}

impl View for MonsterCatalog {
    type V = MonsterCatalogView;

    open spec fn view(&self) -> MonsterCatalogView {
        MonsterCatalogView { monsters: monsters_view(self.monsters@), by_name: self.by_name@ }
    }
}

/// Data types whose payload is a string.
pub open spec fn is_string_type(t: i32) -> bool {
    t == 1 || t == 3 || t == 4 || t == 12
}

/// Data types whose payload is an `i32`.
pub open spec fn is_int_type(t: i32) -> bool {
    t == 2 || (5 <= t <= 11) || t == 13
}

/// For each name, the index of the last monster bearing it.
pub open spec fn name_index(ms: Seq<MonsterDefView>) -> Map<Seq<char>, i32>
    decreases ms.len(),
{
    if ms.len() == 0 {
        Map::empty()
    } else {
        name_index(ms.drop_last()).insert(ms.last().name, (ms.len() - 1) as i32)
    }
}

/// The catalog made of `ms`.
pub open spec fn catalog_of(ms: Seq<MonsterDefView>) -> MonsterCatalogView {
    MonsterCatalogView { monsters: ms, by_name: name_index(ms) }
}

/// The payload of a field of type `t`: an `f32` for 0, a string for 1, 3,
/// 4 and 12, an `i32` for 2, 5 to 11 and 13; any other type is refused.
pub open spec fn sp_field_value(d: Seq<u8>, p: int, t: i32) -> Parsed<MonsterFieldValueView> {
    if t == 0 {
        match sp_u32(d, p) {
            Ok((b, q)) => Ok((MonsterFieldValueView::Float(b), q)),
            Err(e) => Err(e),
        }
    } else if is_string_type(t) {
        match sp_string(d, p) {
            Ok((s, q)) => Ok((MonsterFieldValueView::String(s), q)),
            Err(e) => Err(e),
        }
    } else if is_int_type(t) {
        match sp_i32(d, p) {
            Ok((i, q)) => Ok((MonsterFieldValueView::Int(i), q)),
            Err(e) => Err(e),
        }
    } else {
        Err((SaveError::InvalidData(DataError::UnknownDataType(t)), p))
    }
}

/// A field: id, data type, then the payload.
pub open spec fn sp_field(d: Seq<u8>, p: int) -> Parsed<MonsterFieldView> {
    match sp_i32(d, p) {
        Err(e) => Err(e),
        Ok((id, p)) => match sp_i32(d, p) {
            Err(e) => Err(e),
            Ok((data_type, p)) => match sp_field_value(d, p, data_type) {
                Err(e) => Err(e),
                Ok((value, p)) => Ok((MonsterFieldView { id, data_type, value }, p)),
            },
        },
    }
}

pub open spec fn field_step(d: Seq<u8>) -> spec_fn(int, int) -> Parsed<Option<MonsterFieldView>> {
    |p: int, k: int|
        match sp_field(d, p) {
            Ok((x, q)) => Ok((Some(x), q)),
            Err(e) => Err(e),
        }
}

pub open spec fn string_step(d: Seq<u8>) -> spec_fn(int, int) -> Parsed<Option<Seq<char>>> {
    |p: int, k: int|
        match sp_string(d, p) {
            Ok((x, q)) => Ok((Some(x), q)),
            Err(e) => Err(e),
        }
}

pub open spec fn flag_step(d: Seq<u8>) -> spec_fn(int, int) -> Parsed<Option<i32>> {
    |p: int, k: int|
        match sp_i32(d, p) {
            Ok((x, q)) => Ok((Some(x), q)),
            Err(e) => Err(e),
        }
}

/// The numbers and the texture and definition names of a monster.
pub struct MonsterStats {
    pub type_: i32,
    pub sub_type: i32,
    pub cost: u32,
    pub img: i32,
    pub alt_img: i32,
    pub texture: Seq<char>,
    pub def: Seq<char>,
    pub box_width: i32,
    pub box_height: i32,
    pub box_sub_height: i32,
    pub shadow_width: i32,
    pub shadow_height: i32,
}

pub open spec fn monster_stats(m: MonsterDefView) -> MonsterStats {
    MonsterStats {
        type_: m.type_,
        sub_type: m.sub_type,
        cost: m.cost,
        img: m.img,
        alt_img: m.alt_img,
        texture: m.texture,
        def: m.def,
        box_width: m.box_width,
        box_height: m.box_height,
        box_sub_height: m.box_sub_height,
        shadow_width: m.shadow_width,
        shadow_height: m.shadow_height,
    }
}

/// The monster made of its parts.
pub open spec fn assemble_monster(
    texts: (Seq<char>, Seq<Seq<char>>, Seq<Seq<char>>),
    st: MonsterStats,
    lists: (Seq<MonsterFieldView>, Seq<i32>),
) -> MonsterDefView {
    MonsterDefView {
        name: texts.0,
        titles: texts.1,
        descriptions: texts.2,
        type_: st.type_,
        sub_type: st.sub_type,
        cost: st.cost,
        img: st.img,
        alt_img: st.alt_img,
        texture: st.texture,
        def: st.def,
        box_width: st.box_width,
        box_height: st.box_height,
        box_sub_height: st.box_sub_height,
        shadow_width: st.shadow_width,
        shadow_height: st.shadow_height,
        fields: lists.0,
        flags: lists.1,
    }
}

/// A monster's name, 20 titles and 20 descriptions.
#[verifier::opaque]
pub open spec fn sp_monster_texts(d: Seq<u8>, p: int) -> Parsed<(Seq<char>, Seq<Seq<char>>, Seq<Seq<char>>)> {
    match sp_string(d, p) {
        Err(e) => Err(e),
        Ok((name, p)) => match rep(string_step(d), p, 20) {
            Err(e) => Err(e),
            Ok((titles, p)) => match rep(string_step(d), p, 20) {
                Err(e) => Err(e),
                Ok((descriptions, p)) => Ok(((name, titles, descriptions), p)),
            },
        },
    }
}

/// A monster's type, sub-type, cost, images, texture and definition names,
/// box and shadow sizes.
#[verifier::opaque]
pub open spec fn sp_monster_stats(d: Seq<u8>, p: int) -> Parsed<MonsterStats> {
    match sp_i32(d, p) {
        Err(e) => Err(e),
        Ok((type_, p)) => match sp_i32(d, p) {
            Err(e) => Err(e),
            Ok((sub_type, p)) => match sp_u32(d, p) {
                Err(e) => Err(e),
                Ok((cost, p)) => match sp_i32(d, p) {
                    Err(e) => Err(e),
                    Ok((img, p)) => match sp_i32(d, p) {
                        Err(e) => Err(e),
                        Ok((alt_img, p)) => match sp_string(d, p) {
                            Err(e) => Err(e),
                            Ok((texture, p)) => match sp_string(d, p) {
                                Err(e) => Err(e),
                                Ok((def, p)) => match sp_i32(d, p) {
                                    Err(e) => Err(e),
                                    Ok((box_width, p)) => match sp_i32(d, p) {
                                        Err(e) => Err(e),
                                        Ok((box_height, p)) => match sp_i32(d, p) {
                                            Err(e) => Err(e),
                                            Ok((box_sub_height, p)) => match sp_i32(d, p) {
                                                Err(e) => Err(e),
                                                Ok((shadow_width, p)) => match sp_i32(d, p) {
                                                    Err(e) => Err(e),
                                                    Ok((shadow_height, p)) => Ok(
                                                        (
                                                            MonsterStats {
                                                                type_,
                                                                sub_type,
                                                                cost,
                                                                img,
                                                                alt_img,
                                                                texture,
                                                                def,
                                                                box_width,
                                                                box_height,
                                                                box_sub_height,
                                                                shadow_width,
                                                                shadow_height,
                                                            },
                                                            p,
                                                        ),
                                                    ),
                                                },
                                            },
                                        },
                                    },
                                },
                            },
                        },
                    },
                },
            },
        },
    }
}

/// A monster's field count and fields, then its flag count and flags.
#[verifier::opaque]
pub open spec fn sp_monster_lists(d: Seq<u8>, p: int) -> Parsed<(Seq<MonsterFieldView>, Seq<i32>)> {
    match sp_i32(d, p) {
        Err(e) => Err(e),
        Ok((field_count, p)) => match sp_counted(field_count, field_step(d), p) {
            Err(e) => Err(e),
            Ok((fields, p)) => match sp_i32(d, p) {
                Err(e) => Err(e),
                Ok((flag_count, p)) => match sp_counted(flag_count, flag_step(d), p) {
                    Err(e) => Err(e),
                    Ok((flags, p)) => Ok(((fields, flags), p)),
                },
            },
        },
    }
}

/// A monster: its texts, its stats, then its lists.
pub open spec fn sp_monster(d: Seq<u8>, p: int) -> Parsed<MonsterDefView> {
    match sp_monster_texts(d, p) {
        Err(e) => Err(e),
        Ok((texts, p)) => match sp_monster_stats(d, p) {
            Err(e) => Err(e),
            Ok((st, p)) => match sp_monster_lists(d, p) {
                Err(e) => Err(e),
                Ok((lists, p)) => Ok((assemble_monster(texts, st, lists), p)),
            },
        },
    }
}

pub open spec fn monster_step(d: Seq<u8>) -> spec_fn(int, int) -> Parsed<Option<MonsterDefView>> {
    |p: int, k: int|
        match sp_monster(d, p) {
            Ok((x, q)) => Ok((Some(x), q)),
            Err(e) => Err(e),
        }
}

/// A catalog file: a count, then the monsters; the position is where the
/// last monster ends.
pub open spec fn sp_catalog_file(d: Seq<u8>) -> Parsed<Seq<MonsterDefView>> {
    match sp_i32(d, 0) {
        Err(e) => Err(e),
        Ok((count, p)) => sp_counted(count, monster_step(d), p),
    }
}

/// The catalog that the bytes `d` hold. Bytes after the last monster are
/// not read.
pub open spec fn sp_catalog(d: Seq<u8>) -> Result<MonsterCatalogView, SaveError> {
    match sp_catalog_file(d) {
        Err((e, _)) => Err(e),
        Ok((ms, _)) => Ok(catalog_of(ms)),
    }
}

impl MonsterField {
    /// Reads a field at the reader's position: id, data type, then the
    /// payload that the data type announces.
    pub fn read(r: &mut ByteReader) -> (res: Result<Self, SaveError>)
        ensures
            final(r).bytes() == old(r).bytes(),
            outcome(sp_field(old(r).bytes(), old(r).at()), view_result(res), final(r).at()),
    {
        let id = r.read_i32()?;
        let data_type = r.read_i32()?;
        let value = if data_type == 0 {
            MonsterFieldValue::Float(r.read_u32()?)
        } else if data_type == 1 || data_type == 3 || data_type == 4 || data_type == 12 {
            MonsterFieldValue::String(r.read_string()?)
        } else if data_type == 2 || (5 <= data_type && data_type <= 11) || data_type == 13 {
            MonsterFieldValue::Int(r.read_i32()?)
        } else {
            return Err(SaveError::InvalidData(DataError::UnknownDataType(data_type)));
        };
        Ok(MonsterField { id, data_type, value })
    }
}

fn read_fields(r: &mut ByteReader, count: i32) -> (res: Result<Vec<MonsterField>, SaveError>)
    ensures
        final(r).bytes() == old(r).bytes(),
        outcome(
            sp_counted(count, field_step(old(r).bytes()), old(r).at()),
            match res {
                Ok(v) => Ok(fields_view(v@)),
                Err(e) => Err(e),
            },
            final(r).at(),
        ),
{
    if count < 0 {
        return Err(SaveError::InvalidData(DataError::NegativeCount(count)));
    }
    let ghost d = r.bytes();
    let ghost p0 = r.at();
    let ghost f = field_step(d);
    let mut v: Vec<MonsterField> = Vec::new();
    let mut i: i32 = 0;
    assert(fields_view(v@) =~= Seq::empty());
    while i < count
        invariant
            0 <= i <= count,
            d == old(r).bytes(),
            p0 == old(r).at(),
            r.bytes() == d,
            f == field_step(d),
            rep(f, p0, i as nat) == Ok::<(Seq<MonsterFieldView>, int), (SaveError, int)>(
                (fields_view(v@), r.at()),
            ),
        decreases count - i,
    {
        let x = match MonsterField::read(r) {
            Ok(x) => x,
            Err(e) => {
                proof {
                    lemma_rep_err(f, p0, (i + 1) as nat, count as nat);
                }
                return Err(e);
            },
        };
        let ghost before = v@;
        v.push(x);
        assert(fields_view(v@) =~= fields_view(before).push(x@));
        i = i + 1;
    }
    Ok(v)
}

fn read_flags(r: &mut ByteReader, count: i32) -> (res: Result<Vec<i32>, SaveError>)
    ensures
        final(r).bytes() == old(r).bytes(),
        outcome(sp_counted(count, flag_step(old(r).bytes()), old(r).at()), view_result(res), final(r).at()),
{
    if count < 0 {
        return Err(SaveError::InvalidData(DataError::NegativeCount(count)));
    }
    let ghost d = r.bytes();
    let ghost p0 = r.at();
    let ghost f = flag_step(d);
    let mut v: Vec<i32> = Vec::new();
    let mut i: i32 = 0;
    while i < count
        invariant
            0 <= i <= count,
            d == old(r).bytes(),
            p0 == old(r).at(),
            r.bytes() == d,
            f == flag_step(d),
            rep(f, p0, i as nat) == Ok::<(Seq<i32>, int), (SaveError, int)>((v@, r.at())),
        decreases count - i,
    {
        let x = match r.read_i32() {
            Ok(x) => x,
            Err(e) => {
                proof {
                    lemma_rep_err(f, p0, (i + 1) as nat, count as nat);
                }
                return Err(e);
            },
        };
        v.push(x);
        i = i + 1;
    }
    Ok(v)
}

fn read_strings(r: &mut ByteReader, count: i32) -> (res: Result<Vec<String>, SaveError>)
    requires
        0 <= count,
    ensures
        final(r).bytes() == old(r).bytes(),
        outcome(
            rep(string_step(old(r).bytes()), old(r).at(), count as nat),
            match res {
                Ok(v) => Ok(strings_view(v@)),
                Err(e) => Err(e),
            },
            final(r).at(),
        ),
{
    let ghost d = r.bytes();
    let ghost p0 = r.at();
    let ghost f = string_step(d);
    let mut v: Vec<String> = Vec::new();
    let mut i: i32 = 0;
    assert(strings_view(v@) =~= Seq::empty());
    while i < count
        invariant
            0 <= i <= count,
            d == old(r).bytes(),
            p0 == old(r).at(),
            r.bytes() == d,
            f == string_step(d),
            rep(f, p0, i as nat) == Ok::<(Seq<Seq<char>>, int), (SaveError, int)>(
                (strings_view(v@), r.at()),
            ),
        decreases count - i,
    {
        let x = match r.read_string() {
            Ok(x) => x,
            Err(e) => {
                proof {
                    lemma_rep_err(f, p0, (i + 1) as nat, count as nat);
                }
                return Err(e);
            },
        };
        let ghost before = v@;
        v.push(x);
        assert(strings_view(v@) =~= strings_view(before).push(x@));
        i = i + 1;
    }
    Ok(v)
}

/// The numbers and the texture and definition names of a monster, as read.
struct Stats {
    type_: i32,
    sub_type: i32,
    cost: u32,
    img: i32,
    alt_img: i32,
    texture: String,
    def: String,
    box_width: i32,
    box_height: i32,
    box_sub_height: i32,
    shadow_width: i32,
    shadow_height: i32,
}

impl View for Stats {
    type V = MonsterStats;

    closed spec fn view(&self) -> MonsterStats {
        MonsterStats {
            type_: self.type_,
            sub_type: self.sub_type,
            cost: self.cost,
            img: self.img,
            alt_img: self.alt_img,
            texture: self.texture@,
            def: self.def@,
            box_width: self.box_width,
            box_height: self.box_height,
            box_sub_height: self.box_sub_height,
            shadow_width: self.shadow_width,
            shadow_height: self.shadow_height,
        }
    }
}

fn read_texts(r: &mut ByteReader) -> (res: Result<(String, Vec<String>, Vec<String>), SaveError>)
    ensures
        final(r).bytes() == old(r).bytes(),
        outcome(
            sp_monster_texts(old(r).bytes(), old(r).at()),
            match res {
                Ok((n, t, ds)) => Ok((n@, strings_view(t@), strings_view(ds@))),
                Err(e) => Err(e),
            },
            final(r).at(),
        ),
{
    reveal(sp_monster_texts);
    let name = r.read_string()?;
    let titles = read_strings(r, 20)?;
    let descriptions = read_strings(r, 20)?;
    Ok((name, titles, descriptions))
}

fn read_stats(r: &mut ByteReader) -> (res: Result<Stats, SaveError>)
    ensures
        final(r).bytes() == old(r).bytes(),
        outcome(sp_monster_stats(old(r).bytes(), old(r).at()), view_result(res), final(r).at()),
{
    reveal(sp_monster_stats);
    let type_ = r.read_i32()?;
    let sub_type = r.read_i32()?;
    let cost = r.read_u32()?;
    let img = r.read_i32()?;
    let alt_img = r.read_i32()?;
    let texture = r.read_string()?;
    let def = r.read_string()?;
    let box_width = r.read_i32()?;
    let box_height = r.read_i32()?;
    let box_sub_height = r.read_i32()?;
    let shadow_width = r.read_i32()?;
    let shadow_height = r.read_i32()?;
    Ok(Stats {
        type_,
        sub_type,
        cost,
        img,
        alt_img,
        texture,
        def,
        box_width,
        box_height,
        box_sub_height,
        shadow_width,
        shadow_height,
    })
}

fn read_lists(r: &mut ByteReader) -> (res: Result<(Vec<MonsterField>, Vec<i32>), SaveError>)
    ensures
        final(r).bytes() == old(r).bytes(),
        outcome(
            sp_monster_lists(old(r).bytes(), old(r).at()),
            match res {
                Ok((fs, fl)) => Ok((fields_view(fs@), fl@)),
                Err(e) => Err(e),
            },
            final(r).at(),
        ),
{
    reveal(sp_monster_lists);
    let field_count = r.read_i32()?;
    let fields = read_fields(r, field_count)?;
    let flag_count = r.read_i32()?;
    let flags = read_flags(r, flag_count)?;
    Ok((fields, flags))
}

impl MonsterDef {
    /// Reads a monster at the reader's position.
    pub fn read(r: &mut ByteReader) -> (res: Result<Self, SaveError>)
        ensures
            final(r).bytes() == old(r).bytes(),
            outcome(sp_monster(old(r).bytes(), old(r).at()), view_result(res), final(r).at()),
    {
        let (name, titles, descriptions) = read_texts(r)?;
        let st = read_stats(r)?;
        let (fields, flags) = read_lists(r)?;
        Ok(MonsterDef {
            name,
            titles,
            descriptions,
            type_: st.type_,
            sub_type: st.sub_type,
            cost: st.cost,
            img: st.img,
            alt_img: st.alt_img,
            texture: st.texture,
            def: st.def,
            box_width: st.box_width,
            box_height: st.box_height,
            box_sub_height: st.box_sub_height,
            shadow_width: st.shadow_width,
            shadow_height: st.shadow_height,
            fields,
            flags,
        })
    }
}

impl MonsterCatalog {
    /// Parses the bytes of a monster catalog: an `i32` count, then the
    /// monsters; each monster's name is entered into `by_name` with its index.
    pub fn load_from_bytes(data: &[u8]) -> (res: Result<Self, SaveError>)
        ensures
            view_result(res) == sp_catalog(data@),
    {
        let mut r = ByteReader::new(data);
        let count = r.read_i32()?;
        if count < 0 {
            return Err(SaveError::InvalidData(DataError::NegativeCount(count)));
        }
        let ghost d = data@;
        let ghost p0 = r.at();
        let ghost f = monster_step(d);
        let ghost whole = match rep(f, p0, count as nat) {
            Ok((ms, _)) => Ok(catalog_of(ms)),
            Err((e, _)) => Err(e),
        };
        assert(sp_catalog(d) == whole);
        let mut monsters: Vec<MonsterDef> = Vec::new();
        let mut by_name: NameMap<i32> = NameMap::new();
        let mut idx: i32 = 0;
        assert(monsters_view(monsters@) =~= Seq::empty());
        while idx < count
            invariant
                0 <= idx <= count,
                d == data@,
                sp_catalog(d) == whole,
                whole == match rep(f, p0, count as nat) {
                    Ok((ms, _)) => Ok(catalog_of(ms)),
                    Err((e, _)) => Err::<MonsterCatalogView, SaveError>(e),
                },
                r.bytes() == d,
                f == monster_step(d),
                monsters@.len() == idx,
                rep(f, p0, idx as nat) == Ok::<(Seq<MonsterDefView>, int), (SaveError, int)>(
                    (monsters_view(monsters@), r.at()),
                ),
                by_name@ == name_index(monsters_view(monsters@)),
            decreases count - idx,
        {
            let def = match MonsterDef::read(&mut r) {
                Ok(x) => x,
                Err(e) => {
                    proof {
                        lemma_rep_err(f, p0, (idx + 1) as nat, count as nat);
                    }
                    return Err(e);
                },
            };
            let ghost before = monsters@;
            by_name.insert(def.name.clone(), idx);
            monsters.push(def);
            assert(monsters_view(monsters@) =~= monsters_view(before).push(def@));
            assert(monsters_view(monsters@).drop_last() =~= monsters_view(before));
            idx = idx + 1;
        }
        Ok(MonsterCatalog { monsters, by_name })
    }
}

pub proof fn lemma_empty_add(b: Seq<u8>)
    ensures
        Seq::<u8>::empty() + b == b,
{
    assert(Seq::<u8>::empty() + b =~= b);
}

/// The bytes of a field payload, chosen by the payload's kind.
pub open spec fn ser_field_value(v: MonsterFieldValueView) -> Seq<u8> {
    match v {
        MonsterFieldValueView::Float(b) => le_bytes_u32(b),
        MonsterFieldValueView::Int(i) => le_bytes_i32(i),
        MonsterFieldValueView::String(s) => ser_string(s),
    }
}

/// The bytes of a field: id, data type, payload.
pub open spec fn ser_field(f: MonsterFieldView) -> Seq<u8> {
    le_bytes_i32(f.id) + le_bytes_i32(f.data_type) + ser_field_value(f.value)
}

/// A field can be written: its string payload, if any, fits.
pub open spec fn field_fits(f: MonsterFieldView) -> bool {
    match f.value {
        MonsterFieldValueView::String(s) => string_fits(s),
        _ => true,
    }
}

/// A field's payload is the kind that its data type announces.
pub open spec fn field_consistent(f: MonsterFieldView) -> bool {
    match f.value {
        MonsterFieldValueView::Float(_) => f.data_type == 0,
        MonsterFieldValueView::String(_) => is_string_type(f.data_type),
        MonsterFieldValueView::Int(_) => is_int_type(f.data_type),
    }
}

pub open spec fn ser_strings(ss: Seq<Seq<char>>) -> Seq<u8>
    decreases ss.len(),
{
    if ss.len() == 0 {
        Seq::empty()
    } else {
        ser_strings(ss.drop_last()) + ser_string(ss.last())
    }
}

pub open spec fn ser_fields(fs: Seq<MonsterFieldView>) -> Seq<u8>
    decreases fs.len(),
{
    if fs.len() == 0 {
        Seq::empty()
    } else {
        ser_fields(fs.drop_last()) + ser_field(fs.last())
    }
}

pub open spec fn ser_flags(fl: Seq<i32>) -> Seq<u8>
    decreases fl.len(),
{
    if fl.len() == 0 {
        Seq::empty()
    } else {
        ser_flags(fl.drop_last()) + le_bytes_i32(fl.last())
    }
}

/// The name, titles and descriptions of a monster.
pub open spec fn ser_monster_texts(m: MonsterDefView) -> Seq<u8> {
    ser_string(m.name) + ser_strings(m.titles) + ser_strings(m.descriptions)
}

/// The numbers and the texture and definition names of a monster.
pub open spec fn ser_monster_stats(m: MonsterDefView) -> Seq<u8> {
    le_bytes_i32(m.type_) + le_bytes_i32(m.sub_type) + le_bytes_u32(m.cost) + le_bytes_i32(m.img)
        + le_bytes_i32(m.alt_img) + ser_string(m.texture) + ser_string(m.def) + le_bytes_i32(
        m.box_width,
    ) + le_bytes_i32(m.box_height) + le_bytes_i32(m.box_sub_height) + le_bytes_i32(m.shadow_width)
        + le_bytes_i32(m.shadow_height)
}

/// The counted fields and flags of a monster; the counts are the list
/// lengths cast to `i32`.
pub open spec fn ser_monster_lists(m: MonsterDefView) -> Seq<u8> {
    le_bytes_i32(m.fields.len() as i32) + ser_fields(m.fields) + le_bytes_i32(m.flags.len() as i32)
        + ser_flags(m.flags)
}

/// The bytes of a monster, in the order that [`sp_monster`] reads them.
pub open spec fn ser_monster(m: MonsterDefView) -> Seq<u8> {
    ser_monster_texts(m) + ser_monster_stats(m) + ser_monster_lists(m)
}

pub open spec fn strings_fit(ss: Seq<Seq<char>>) -> bool {
    forall|i: int| 0 <= i < ss.len() ==> string_fits(#[trigger] ss[i])
}

/// A monster can be written: every string it holds fits.
pub open spec fn monster_fits(m: MonsterDefView) -> bool {
    &&& string_fits(m.name)
    &&& strings_fit(m.titles)
    &&& strings_fit(m.descriptions)
    &&& string_fits(m.texture)
    &&& string_fits(m.def)
    &&& forall|i: int| 0 <= i < m.fields.len() ==> field_fits(#[trigger] m.fields[i])
}

pub open spec fn ser_monsters(ms: Seq<MonsterDefView>) -> Seq<u8>
    decreases ms.len(),
{
    if ms.len() == 0 {
        Seq::empty()
    } else {
        ser_monsters(ms.drop_last()) + ser_monster(ms.last())
    }
}

/// The bytes of a catalog: the monster count cast to `i32`, then the monsters.
pub open spec fn ser_catalog(ms: Seq<MonsterDefView>) -> Seq<u8> {
    le_bytes_i32(ms.len() as i32) + ser_monsters(ms)
}

/// Writing the monsters up to `i` and then monster `i` writes the monsters
/// up to `i + 1`.
proof fn lemma_ser_monsters_take(pre: Seq<u8>, ms: Seq<MonsterDefView>, i: int)
    requires
        0 <= i < ms.len(),
    ensures
        pre + ser_monsters(ms.take(i)) + ser_monster(ms[i]) == pre + ser_monsters(ms.take(i + 1)),
{
    assert(ms.take(i + 1).drop_last() =~= ms.take(i));
    assert(ms.take(i + 1).last() == ms[i]);
    assert(pre + ser_monsters(ms.take(i)) + ser_monster(ms[i]) =~= pre + ser_monsters(ms.take(i + 1)));
}

/// Every monster of the catalog can be written.
pub open spec fn catalog_fits(ms: Seq<MonsterDefView>) -> bool {
    forall|i: int| 0 <= i < ms.len() ==> monster_fits(#[trigger] ms[i])
}

/// What a writer leaves behind: the bytes it wrote and whether it went on
/// to the end. A writer stops at the first string it cannot write, and
/// what it wrote before that string stays.
pub open spec fn w_then(a: (Seq<u8>, bool), b: (Seq<u8>, bool)) -> (Seq<u8>, bool) {
    if a.1 {
        (a.0 + b.0, b.1)
    } else {
        a
    }
}

/// Writing a string: its encoding, or nothing where it does not fit.
pub open spec fn w_string(s: Seq<char>) -> (Seq<u8>, bool) {
    if string_fits(s) {
        (ser_string(s), true)
    } else {
        (Seq::empty(), false)
    }
}

pub open spec fn w_strings(ss: Seq<Seq<char>>) -> (Seq<u8>, bool)
    decreases ss.len(),
{
    if ss.len() == 0 {
        (Seq::empty(), true)
    } else {
        w_then(w_strings(ss.drop_last()), w_string(ss.last()))
    }
}

/// Writing a field: id and data type, then the payload.
pub open spec fn w_field(f: MonsterFieldView) -> (Seq<u8>, bool) {
    w_then(
        (le_bytes_i32(f.id) + le_bytes_i32(f.data_type), true),
        match f.value {
            MonsterFieldValueView::String(s) => w_string(s),
            v => (ser_field_value(v), true),
        },
    )
}

pub open spec fn w_fields(fs: Seq<MonsterFieldView>) -> (Seq<u8>, bool)
    decreases fs.len(),
{
    if fs.len() == 0 {
        (Seq::empty(), true)
    } else {
        w_then(w_fields(fs.drop_last()), w_field(fs.last()))
    }
}

pub open spec fn w_monster_texts(m: MonsterDefView) -> (Seq<u8>, bool) {
    w_then(w_then(w_string(m.name), w_strings(m.titles)), w_strings(m.descriptions))
}

pub open spec fn w_monster_stats(m: MonsterDefView) -> (Seq<u8>, bool) {
    w_then(
        w_then(
            w_then(
                (
                    le_bytes_i32(m.type_) + le_bytes_i32(m.sub_type) + le_bytes_u32(m.cost) + le_bytes_i32(
                        m.img,
                    ) + le_bytes_i32(m.alt_img),
                    true,
                ),
                w_string(m.texture),
            ),
            w_string(m.def),
        ),
        (
            le_bytes_i32(m.box_width) + le_bytes_i32(m.box_height) + le_bytes_i32(m.box_sub_height)
                + le_bytes_i32(m.shadow_width) + le_bytes_i32(m.shadow_height),
            true,
        ),
    )
}

pub open spec fn w_monster_lists(m: MonsterDefView) -> (Seq<u8>, bool) {
    w_then(
        w_then((le_bytes_i32(m.fields.len() as i32), true), w_fields(m.fields)),
        (le_bytes_i32(m.flags.len() as i32) + ser_flags(m.flags), true),
    )
}

/// Writing a monster: its texts, its stats, then its lists, stopping at the
/// first string that cannot be written.
pub open spec fn w_monster(m: MonsterDefView) -> (Seq<u8>, bool) {
    w_then(w_then(w_monster_texts(m), w_monster_stats(m)), w_monster_lists(m))
}

/// Once a list writer has stopped, writing more items changes nothing.
proof fn lemma_w_strings_stop(ss: Seq<Seq<char>>, k: int)
    requires
        0 <= k <= ss.len(),
        !w_strings(ss.take(k)).1,
    ensures
        w_strings(ss) == w_strings(ss.take(k)),
    decreases ss.len(),
{
    if k == ss.len() {
        assert(ss.take(k) =~= ss);
    } else {
        assert(ss.drop_last().take(k) =~= ss.take(k));
        lemma_w_strings_stop(ss.drop_last(), k);
    }
}

proof fn lemma_w_fields_stop(fs: Seq<MonsterFieldView>, k: int)
    requires
        0 <= k <= fs.len(),
        !w_fields(fs.take(k)).1,
    ensures
        w_fields(fs) == w_fields(fs.take(k)),
    decreases fs.len(),
{
    if k == fs.len() {
        assert(fs.take(k) =~= fs);
    } else {
        assert(fs.drop_last().take(k) =~= fs.take(k));
        lemma_w_fields_stop(fs.drop_last(), k);
    }
}

impl MonsterField {
    /// Appends the field's bytes: id, data type, then the payload of the
    /// value's own kind. A string that does not fit is not written, and
    /// nothing follows it.
    pub fn write(&self, out: &mut Vec<u8>) -> (res: Result<(), SaveError>)
        ensures
            field_fits(self@) ==> res is Ok && final(out)@ == old(out)@ + ser_field(self@),
            !field_fits(self@) ==> res == Err::<(), SaveError>(SaveError::InvalidData(DataError::StringTooLong)),
            final(out)@ == old(out)@ + w_field(self@).0,
            res is Ok <==> w_field(self@).1,
    {
        push_i32_le(out, self.id);
        push_i32_le(out, self.data_type);
        match &self.value {
            MonsterFieldValue::Float(b) => push_u32_le(out, *b),
            MonsterFieldValue::Int(i) => push_i32_le(out, *i),
            MonsterFieldValue::String(s) => {
                let ghost mid = out@;
                match write_string(out, s.as_str()) {
                    Ok(()) => {},
                    Err(e) => {
                        assert(out@ =~= old(out)@ + w_field(self@).0);
                        return Err(e);
                    },
                }
            },
        }
        assert(out@ =~= old(out)@ + ser_field(self@));
        assert(out@ =~= old(out)@ + w_field(self@).0);
        Ok(())
    }
}

fn write_strings(out: &mut Vec<u8>, ss: &Vec<String>) -> (res: Result<(), SaveError>)
    ensures
        strings_fit(strings_view(ss@)) ==> res is Ok && final(out)@ == old(out)@ + ser_strings(strings_view(ss@)),
        !strings_fit(strings_view(ss@)) ==> res == Err::<(), SaveError>(SaveError::InvalidData(DataError::StringTooLong)),
        final(out)@ == old(out)@ + w_strings(strings_view(ss@)).0,
        res is Ok <==> w_strings(strings_view(ss@)).1,
{
    let ghost v = strings_view(ss@);
    let mut i: usize = 0;
    assert(v.take(0) =~= Seq::empty());
    assert(old(out)@ + Seq::<u8>::empty() =~= old(out)@);
    while i < ss.len()
        invariant
            i <= ss@.len(),
            v == strings_view(ss@),
            out@ == old(out)@ + ser_strings(v.take(i as int)),
            strings_fit(v.take(i as int)),
            w_strings(v.take(i as int)) == (ser_strings(v.take(i as int)), true),
        decreases ss@.len() - i,
    {
        match write_string(out, ss[i].as_str()) {
            Ok(()) => {},
            Err(e) => {
                assert(!string_fits(v[i as int]));
                proof {
                    assert(v.take(i + 1).drop_last() =~= v.take(i as int));
                    lemma_w_strings_stop(v, i + 1);
                    assert(out@ =~= old(out)@ + w_strings(v).0);
                }
                return Err(e);
            },
        }
        assert(v.take(i + 1).drop_last() =~= v.take(i as int));
        assert(v.take(i + 1).last() == v[i as int]);
        assert(out@ =~= old(out)@ + ser_strings(v.take(i + 1)));
        i = i + 1;
    }
    assert(v.take(ss@.len() as int) =~= v);
    assert(v.take(0) =~= Seq::empty());
    Ok(())
}

fn write_fields(out: &mut Vec<u8>, fs: &Vec<MonsterField>) -> (res: Result<(), SaveError>)
    ensures
        (forall|i: int| 0 <= i < fs@.len() ==> field_fits(#[trigger] fields_view(fs@)[i])) ==> res is Ok
            && final(out)@ == old(out)@ + ser_fields(fields_view(fs@)),
        !(forall|i: int| 0 <= i < fs@.len() ==> field_fits(#[trigger] fields_view(fs@)[i])) ==> res
            == Err::<(), SaveError>(SaveError::InvalidData(DataError::StringTooLong)),
        final(out)@ == old(out)@ + w_fields(fields_view(fs@)).0,
        res is Ok <==> w_fields(fields_view(fs@)).1,
{
    let ghost v = fields_view(fs@);
    let mut i: usize = 0;
    assert(v.take(0) =~= Seq::empty());
    assert(old(out)@ + Seq::<u8>::empty() =~= old(out)@);
    while i < fs.len()
        invariant
            i <= fs@.len(),
            v == fields_view(fs@),
            out@ == old(out)@ + ser_fields(v.take(i as int)),
            forall|j: int| 0 <= j < i ==> field_fits(#[trigger] v[j]),
            w_fields(v.take(i as int)) == (ser_fields(v.take(i as int)), true),
        decreases fs@.len() - i,
    {
        let ghost before = out@;
        match fs[i].write(out) {
            Ok(()) => {},
            Err(e) => {
                assert(v[i as int] == fs@[i as int]@);
                assert(!field_fits(v[i as int]));
                proof {
                    assert(v.take(i + 1).drop_last() =~= v.take(i as int));
                    assert(v.take(i + 1).last() == v[i as int]);
                    lemma_w_fields_stop(v, i + 1);
                    assert(out@ =~= old(out)@ + w_fields(v).0);
                }
                return Err(e);
            },
        }
        assert(w_field(v[i as int]) == (ser_field(v[i as int]), true)) by {
            assert(v[i as int] == fs@[i as int]@);
            assert(before + w_field(v[i as int]).0 =~= before + ser_field(v[i as int]));
        }
        assert(v.take(i + 1).drop_last() =~= v.take(i as int));
        assert(v.take(i + 1).last() == v[i as int]);
        assert(out@ =~= old(out)@ + ser_fields(v.take(i + 1)));
        i = i + 1;
    }
    assert(v.take(fs@.len() as int) =~= v);
    Ok(())
}

fn write_flags(out: &mut Vec<u8>, fl: &Vec<i32>)
    ensures
        final(out)@ == old(out)@ + ser_flags(fl@),
{
    let mut i: usize = 0;
    assert(fl@.take(0) =~= Seq::empty());
    while i < fl.len()
        invariant
            i <= fl@.len(),
            out@ == old(out)@ + ser_flags(fl@.take(i as int)),
        decreases fl@.len() - i,
    {
        push_i32_le(out, fl[i]);
        assert(fl@.take(i + 1).drop_last() =~= fl@.take(i as int));
        assert(out@ =~= old(out)@ + ser_flags(fl@.take(i + 1)));
        i = i + 1;
    }
    assert(fl@.take(fl@.len() as int) =~= fl@);
}

impl MonsterDef {
    fn write_texts(&self, out: &mut Vec<u8>) -> (res: Result<(), SaveError>)
        ensures
            (string_fits(self@.name) && strings_fit(self@.titles) && strings_fit(self@.descriptions))
                ==> res is Ok && final(out)@ == old(out)@ + ser_monster_texts(self@),
            !(string_fits(self@.name) && strings_fit(self@.titles) && strings_fit(self@.descriptions))
                ==> res == Err::<(), SaveError>(SaveError::InvalidData(DataError::StringTooLong)),
            final(out)@ == old(out)@ + w_monster_texts(self@).0,
            res is Ok <==> w_monster_texts(self@).1,
    {
        let ghost m = self@;
        match write_string(out, self.name.as_str()) {
            Ok(()) => {},
            Err(e) => {
                assert(out@ =~= old(out)@ + w_monster_texts(m).0);
                return Err(e);
            },
        }
        match write_strings(out, &self.titles) {
            Ok(()) => {},
            Err(e) => {
                assert(out@ =~= old(out)@ + w_monster_texts(m).0);
                return Err(e);
            },
        }
        match write_strings(out, &self.descriptions) {
            Ok(()) => {},
            Err(e) => {
                assert(out@ =~= old(out)@ + w_monster_texts(m).0);
                return Err(e);
            },
        }
        assert(out@ =~= old(out)@ + ser_monster_texts(m));
        assert(out@ =~= old(out)@ + w_monster_texts(m).0);
        Ok(())
    }

    fn write_stats(&self, out: &mut Vec<u8>) -> (res: Result<(), SaveError>)
        ensures
            (string_fits(self@.texture) && string_fits(self@.def)) ==> res is Ok && final(out)@ == old(
                out,
            )@ + ser_monster_stats(self@),
            !(string_fits(self@.texture) && string_fits(self@.def)) ==> res == Err::<(), SaveError>(
                SaveError::InvalidData(DataError::StringTooLong),
            ),
            final(out)@ == old(out)@ + w_monster_stats(self@).0,
            res is Ok <==> w_monster_stats(self@).1,
    {
        let ghost m = self@;
        push_i32_le(out, self.type_);
        push_i32_le(out, self.sub_type);
        push_u32_le(out, self.cost);
        push_i32_le(out, self.img);
        push_i32_le(out, self.alt_img);
        match write_string(out, self.texture.as_str()) {
            Ok(()) => {},
            Err(e) => {
                assert(out@ =~= old(out)@ + w_monster_stats(m).0);
                return Err(e);
            },
        }
        match write_string(out, self.def.as_str()) {
            Ok(()) => {},
            Err(e) => {
                assert(out@ =~= old(out)@ + w_monster_stats(m).0);
                return Err(e);
            },
        }
        push_i32_le(out, self.box_width);
        push_i32_le(out, self.box_height);
        push_i32_le(out, self.box_sub_height);
        push_i32_le(out, self.shadow_width);
        push_i32_le(out, self.shadow_height);
        assert(out@ =~= old(out)@ + ser_monster_stats(m));
        assert(out@ =~= old(out)@ + w_monster_stats(m).0);
        Ok(())
    }

    fn write_lists(&self, out: &mut Vec<u8>) -> (res: Result<(), SaveError>)
        ensures
            (forall|i: int| 0 <= i < self@.fields.len() ==> field_fits(#[trigger] self@.fields[i]))
                ==> res is Ok && final(out)@ == old(out)@ + ser_monster_lists(self@),
            !(forall|i: int| 0 <= i < self@.fields.len() ==> field_fits(#[trigger] self@.fields[i]))
                ==> res == Err::<(), SaveError>(SaveError::InvalidData(DataError::StringTooLong)),
            final(out)@ == old(out)@ + w_monster_lists(self@).0,
            res is Ok <==> w_monster_lists(self@).1,
    {
        let ghost m = self@;
        push_i32_le(out, #[verifier::truncate] (self.fields.len() as i32));
        assert(self@.fields == fields_view(self.fields@));
        match write_fields(out, &self.fields) {
            Ok(()) => {},
            Err(e) => {
                assert(out@ =~= old(out)@ + w_monster_lists(m).0);
                return Err(e);
            },
        }
        push_i32_le(out, #[verifier::truncate] (self.flags.len() as i32));
        write_flags(out, &self.flags);
        assert(out@ =~= old(out)@ + ser_monster_lists(m));
        assert(out@ =~= old(out)@ + w_monster_lists(m).0);
        Ok(())
    }

    /// Appends the monster's bytes, stopping at the first string that does
    /// not fit.
    pub fn write(&self, out: &mut Vec<u8>) -> (res: Result<(), SaveError>)
        ensures
            monster_fits(self@) ==> res is Ok && final(out)@ == old(out)@ + ser_monster(self@),
            !monster_fits(self@) ==> res == Err::<(), SaveError>(SaveError::InvalidData(DataError::StringTooLong)),
            final(out)@ == old(out)@ + w_monster(self@).0,
            res is Ok <==> w_monster(self@).1,
    {
        let ghost m = self@;
        match self.write_texts(out) {
            Ok(()) => {},
            Err(e) => {
                return Err(e);
            },
        }
        match self.write_stats(out) {
            Ok(()) => {},
            Err(e) => {
                assert(out@ =~= old(out)@ + w_monster(m).0);
                return Err(e);
            },
        }
        match self.write_lists(out) {
            Ok(()) => {},
            Err(e) => {
                assert(out@ =~= old(out)@ + w_monster(m).0);
                return Err(e);
            },
        }
        assert(out@ =~= old(out)@ + ser_monster(m));
        assert(out@ =~= old(out)@ + w_monster(m).0);
        Ok(())
    }

    /// The bytes of this monster as a catalog stores it; a string whose
    /// UTF-8 form is longer than `i32::MAX` bytes cannot be written.
    pub fn to_bytes(&self) -> (res: Result<Vec<u8>, SaveError>)
        ensures
            monster_fits(self@) ==> res is Ok && res.unwrap()@ == ser_monster(self@),
            !monster_fits(self@) ==> res == Err::<Vec<u8>, SaveError>(SaveError::InvalidData(DataError::StringTooLong)),
    {
        let mut buf: Vec<u8> = Vec::new();
        let ghost b = ser_monster(self@);
        proof {
            lemma_empty_add(b);
        }
        self.write(&mut buf)?;
        Ok(buf)
    }
}

impl MonsterCatalog {
    /// The bytes of the catalog: the monster count, then each monster.
    pub fn to_bytes(&self) -> (res: Result<Vec<u8>, SaveError>)
        ensures
            catalog_fits(self@.monsters) ==> res is Ok && res.unwrap()@ == ser_catalog(self@.monsters),
            !catalog_fits(self@.monsters) ==> res == Err::<Vec<u8>, SaveError>(SaveError::InvalidData(DataError::StringTooLong)),
    {
        let ghost ms = self@.monsters;
        let mut buf: Vec<u8> = Vec::new();
        push_i32_le(&mut buf, #[verifier::truncate] (self.monsters.len() as i32));
        let mut i: usize = 0;
        assert(ms.take(0) =~= Seq::empty());
        while i < self.monsters.len()
            invariant
                i <= self.monsters@.len(),
                ms == monsters_view(self.monsters@),
                buf@ == le_bytes_i32(self.monsters@.len() as i32) + ser_monsters(ms.take(i as int)),
                forall|j: int| 0 <= j < i ==> monster_fits(#[trigger] ms[j]),
            decreases self.monsters@.len() - i,
        {
            match self.monsters[i].write(&mut buf) {
                Ok(()) => {},
                Err(e) => {
                    assert(ms[i as int] == self.monsters@[i as int]@);
                    return Err(e);
                },
            }
            proof {
                lemma_ser_monsters_take(le_bytes_i32(self.monsters@.len() as i32), ms, i as int);
            }
            i = i + 1;
        }
        assert(ms.take(self.monsters@.len() as int) =~= ms);
        Ok(buf)
    }
}

} // verus!
