//! The laws of the monster catalog format: what is written reads back as
//! itself, and what is read has the shape a catalog file can hold.
use crate::error::{DataError, SaveError};
use crate::le::{le_bytes_i32, le_bytes_u32};
use crate::monster_catalog::{
    catalog_fits, catalog_of, field_consistent, field_fits, field_step, flag_step, monster_fits,
    monster_stats, monster_step, name_index, ser_catalog, ser_field, ser_fields, ser_flags,
    ser_field_value, ser_monster, ser_monster_lists, ser_monster_stats, ser_monster_texts, ser_monsters, ser_strings,
    sp_catalog, sp_catalog_file, sp_field, sp_field_value, sp_monster, sp_monster_lists, sp_monster_stats, sp_monster_texts,
    string_step, strings_fit, MonsterCatalogView, MonsterDefView, MonsterFieldValueView,
    MonsterFieldView, MonsterStats,
};
use crate::reader::{
    agree, canonical_at, holds_at, lemma_agree_below, lemma_canonical_join, lemma_read_numbers_canonical, lemma_holds_split, lemma_i32_roundtrip, lemma_reads_below_counted,
    lemma_reads_below_rep, lemma_reads_below_u32, lemma_rep_all, lemma_rep_exact, lemma_rep_len,
    lemma_u32_roundtrip, reads_below, rep, sp_counted, sp_i32, sp_u32,
};
use crate::text::{
    lemma_read_string_canonical, lemma_read_string_fits, lemma_reads_below_string, lemma_string_roundtrip, ser_string, sp_string,
    string_fits,
};
use vstd::prelude::*;

verus! {

/// A written field reads back as itself when its payload is the kind its
/// data type announces.
pub proof fn lemma_field_roundtrip(d: Seq<u8>, p: int, f: MonsterFieldView)
    requires
        holds_at(d, p, ser_field(f)),
        field_fits(f),
        field_consistent(f),
    ensures
        sp_field(d, p) == Ok::<(MonsterFieldView, int), (SaveError, int)>((f, p + ser_field(f).len())),
{
    let a = le_bytes_i32(f.id);
    let b = le_bytes_i32(f.data_type);
    let c = ser_field_value(f.value);
    lemma_holds_split(d, p, a + b, c);
    lemma_holds_split(d, p, a, b);
    lemma_i32_roundtrip(d, p, f.id);
    lemma_i32_roundtrip(d, p + 4, f.data_type);
    let q = p + 8;
    match f.value {
        MonsterFieldValueView::Float(x) => {
            lemma_u32_roundtrip(d, q, x);
        },
        MonsterFieldValueView::Int(x) => {
            lemma_i32_roundtrip(d, q, x);
        },
        MonsterFieldValueView::String(x) => {
            lemma_string_roundtrip(d, q, x);
        },
    }
}

pub proof fn lemma_strings_roundtrip(d: Seq<u8>, p: int, ss: Seq<Seq<char>>)
    requires
        holds_at(d, p, ser_strings(ss)),
        strings_fit(ss),
    ensures
        rep(string_step(d), p, ss.len()) == Ok::<(Seq<Seq<char>>, int), (SaveError, int)>(
            (ss, p + ser_strings(ss).len()),
        ),
    decreases ss.len(),
{
    if ss.len() > 0 {
        let init = ss.drop_last();
        lemma_holds_split(d, p, ser_strings(init), ser_string(ss.last()));
        assert(strings_fit(init)) by {
            assert forall|i: int| 0 <= i < init.len() implies string_fits(#[trigger] init[i]) by {
                assert(init[i] == ss[i]);
            }
        }
        lemma_strings_roundtrip(d, p, init);
        assert(string_fits(ss[ss.len() - 1]));
        lemma_string_roundtrip(d, p + ser_strings(init).len(), ss.last());
        assert(init.push(ss.last()) =~= ss);
        assert(init.len() == (ss.len() - 1) as nat);
    } else {
        assert(ss =~= Seq::empty());
    }
}

pub proof fn lemma_fields_roundtrip(d: Seq<u8>, p: int, fs: Seq<MonsterFieldView>)
    requires
        holds_at(d, p, ser_fields(fs)),
        forall|i: int| 0 <= i < fs.len() ==> field_fits(#[trigger] fs[i]),
        forall|i: int| 0 <= i < fs.len() ==> field_consistent(#[trigger] fs[i]),
    ensures
        rep(field_step(d), p, fs.len()) == Ok::<(Seq<MonsterFieldView>, int), (SaveError, int)>(
            (fs, p + ser_fields(fs).len()),
        ),
    decreases fs.len(),
{
    if fs.len() > 0 {
        let init = fs.drop_last();
        lemma_holds_split(d, p, ser_fields(init), ser_field(fs.last()));
        assert forall|i: int| 0 <= i < init.len() implies field_fits(#[trigger] init[i])
            && field_consistent(init[i]) by {
            assert(init[i] == fs[i]);
        }
        lemma_fields_roundtrip(d, p, init);
        assert(field_fits(fs[fs.len() - 1]) && field_consistent(fs[fs.len() - 1]));
        lemma_field_roundtrip(d, p + ser_fields(init).len(), fs.last());
        assert(init.push(fs.last()) =~= fs);
        assert(init.len() == (fs.len() - 1) as nat);
    } else {
        assert(fs =~= Seq::empty());
    }
}

pub proof fn lemma_flags_roundtrip(d: Seq<u8>, p: int, fl: Seq<i32>)
    requires
        holds_at(d, p, ser_flags(fl)),
    ensures
        rep(flag_step(d), p, fl.len()) == Ok::<(Seq<i32>, int), (SaveError, int)>(
            (fl, p + ser_flags(fl).len()),
        ),
    decreases fl.len(),
{
    if fl.len() > 0 {
        let init = fl.drop_last();
        lemma_holds_split(d, p, ser_flags(init), le_bytes_i32(fl.last()));
        lemma_flags_roundtrip(d, p, init);
        lemma_i32_roundtrip(d, p + ser_flags(init).len(), fl.last());
        assert(init.push(fl.last()) =~= fl);
        assert(init.len() == (fl.len() - 1) as nat);
    } else {
        assert(fl =~= Seq::empty());
    }
}

/// A monster that a catalog file can hold as it is: it can be written, it
/// has 20 titles and 20 descriptions, its lists are short enough to be
/// counted by an `i32`, and each field's payload is the kind its data type
/// announces.
pub open spec fn monster_well_formed(m: MonsterDefView) -> bool {
    &&& monster_fits(m)
    &&& m.titles.len() == 20
    &&& m.descriptions.len() == 20
    &&& m.fields.len() <= i32::MAX
    &&& m.flags.len() <= i32::MAX
    &&& forall|i: int| 0 <= i < m.fields.len() ==> field_consistent(#[trigger] m.fields[i])
}

proof fn lemma_texts_roundtrip(d: Seq<u8>, p: int, m: MonsterDefView)
    requires
        holds_at(d, p, ser_monster_texts(m)),
        monster_well_formed(m),
    ensures
        sp_monster_texts(d, p) == Ok::<(_, int), (SaveError, int)>(
            ((m.name, m.titles, m.descriptions), p + ser_monster_texts(m).len()),
        ),
{
    reveal(sp_monster_texts);
    let p1 = p + ser_string(m.name).len();
    let p2 = p1 + ser_strings(m.titles).len();
    lemma_holds_split(d, p, ser_string(m.name) + ser_strings(m.titles), ser_strings(m.descriptions));
    lemma_holds_split(d, p, ser_string(m.name), ser_strings(m.titles));
    lemma_string_roundtrip(d, p, m.name);
    lemma_strings_roundtrip(d, p1, m.titles);
    lemma_strings_roundtrip(d, p2, m.descriptions);
}

#[verifier::rlimit(40)]
proof fn lemma_stats_roundtrip(d: Seq<u8>, p: int, m: MonsterDefView)
    requires
        holds_at(d, p, ser_monster_stats(m)),
        monster_well_formed(m),
    ensures
        sp_monster_stats(d, p) == Ok::<(MonsterStats, int), (SaveError, int)>(
            (monster_stats(m), p + ser_monster_stats(m).len()),
        ),
{
    reveal(sp_monster_stats);
    let b0 = le_bytes_i32(m.type_);
    let b1 = le_bytes_i32(m.sub_type);
    let b2 = le_bytes_u32(m.cost);
    let b3 = le_bytes_i32(m.img);
    let b4 = le_bytes_i32(m.alt_img);
    let b5 = ser_string(m.texture);
    let b6 = ser_string(m.def);
    let b7 = le_bytes_i32(m.box_width);
    let b8 = le_bytes_i32(m.box_height);
    let b9 = le_bytes_i32(m.box_sub_height);
    let b10 = le_bytes_i32(m.shadow_width);
    let b11 = le_bytes_i32(m.shadow_height);
    let all = ser_monster_stats(m);
    // peel from the right: all = (((..(b0 + b1) + ..) + b10) + b11)
    lemma_holds_split(d, p, b0 + b1 + b2 + b3 + b4 + b5 + b6 + b7 + b8 + b9 + b10, b11);
    lemma_holds_split(d, p, b0 + b1 + b2 + b3 + b4 + b5 + b6 + b7 + b8 + b9, b10);
    lemma_holds_split(d, p, b0 + b1 + b2 + b3 + b4 + b5 + b6 + b7 + b8, b9);
    lemma_holds_split(d, p, b0 + b1 + b2 + b3 + b4 + b5 + b6 + b7, b8);
    lemma_holds_split(d, p, b0 + b1 + b2 + b3 + b4 + b5 + b6, b7);
    lemma_holds_split(d, p, b0 + b1 + b2 + b3 + b4 + b5, b6);
    lemma_holds_split(d, p, b0 + b1 + b2 + b3 + b4, b5);
    lemma_holds_split(d, p, b0 + b1 + b2 + b3, b4);
    lemma_holds_split(d, p, b0 + b1 + b2, b3);
    lemma_holds_split(d, p, b0 + b1, b2);
    lemma_holds_split(d, p, b0, b1);
    lemma_i32_roundtrip(d, p, m.type_);
    lemma_i32_roundtrip(d, p + 4, m.sub_type);
    lemma_u32_roundtrip(d, p + 8, m.cost);
    lemma_i32_roundtrip(d, p + 12, m.img);
    lemma_i32_roundtrip(d, p + 16, m.alt_img);
    let q = p + 20;
    lemma_string_roundtrip(d, q, m.texture);
    let q = q + b5.len();
    lemma_string_roundtrip(d, q, m.def);
    let q = q + b6.len();
    lemma_i32_roundtrip(d, q, m.box_width);
    lemma_i32_roundtrip(d, q + 4, m.box_height);
    lemma_i32_roundtrip(d, q + 8, m.box_sub_height);
    lemma_i32_roundtrip(d, q + 12, m.shadow_width);
    lemma_i32_roundtrip(d, q + 16, m.shadow_height);
}

proof fn lemma_lists_roundtrip(d: Seq<u8>, p: int, m: MonsterDefView)
    requires
        holds_at(d, p, ser_monster_lists(m)),
        monster_well_formed(m),
    ensures
        sp_monster_lists(d, p) == Ok::<(_, int), (SaveError, int)>(
            ((m.fields, m.flags), p + ser_monster_lists(m).len()),
        ),
{
    reveal(sp_monster_lists);
    let l1 = le_bytes_i32(m.fields.len() as i32);
    let l2 = ser_fields(m.fields);
    let l3 = le_bytes_i32(m.flags.len() as i32);
    let l4 = ser_flags(m.flags);
    lemma_holds_split(d, p, l1 + l2 + l3, l4);
    lemma_holds_split(d, p, l1 + l2, l3);
    lemma_holds_split(d, p, l1, l2);
    lemma_i32_roundtrip(d, p, m.fields.len() as i32);
    lemma_fields_roundtrip(d, p + 4, m.fields);
    let q = p + 4 + l2.len();
    lemma_i32_roundtrip(d, q, m.flags.len() as i32);
    lemma_flags_roundtrip(d, q + 4, m.flags);
}

/// A written monster reads back as itself, wherever it stands in the input.
#[verifier::rlimit(40)]
pub proof fn lemma_monster_roundtrip(d: Seq<u8>, p: int, m: MonsterDefView)
    requires
        holds_at(d, p, ser_monster(m)),
        monster_well_formed(m),
    ensures
        sp_monster(d, p) == Ok::<(MonsterDefView, int), (SaveError, int)>((m, p + ser_monster(m).len())),
{
    let texts = ser_monster_texts(m);
    let stats = ser_monster_stats(m);
    let lists = ser_monster_lists(m);
    lemma_holds_split(d, p, texts + stats, lists);
    lemma_holds_split(d, p, texts, stats);
    lemma_texts_roundtrip(d, p, m);
    lemma_stats_roundtrip(d, p + texts.len(), m);
    lemma_lists_roundtrip(d, p + texts.len() + stats.len(), m);
}

pub proof fn lemma_monsters_roundtrip(d: Seq<u8>, p: int, ms: Seq<MonsterDefView>)
    requires
        holds_at(d, p, ser_monsters(ms)),
        forall|i: int| 0 <= i < ms.len() ==> monster_well_formed(#[trigger] ms[i]),
    ensures
        rep(monster_step(d), p, ms.len()) == Ok::<(Seq<MonsterDefView>, int), (SaveError, int)>(
            (ms, p + ser_monsters(ms).len()),
        ),
    decreases ms.len(),
{
    if ms.len() > 0 {
        let init = ms.drop_last();
        lemma_holds_split(d, p, ser_monsters(init), ser_monster(ms.last()));
        assert forall|i: int| 0 <= i < init.len() implies monster_well_formed(#[trigger] init[i]) by {
            assert(init[i] == ms[i]);
        }
        lemma_monsters_roundtrip(d, p, init);
        assert(monster_well_formed(ms[ms.len() - 1]));
        lemma_monster_roundtrip(d, p + ser_monsters(init).len(), ms.last());
        assert(init.push(ms.last()) =~= ms);
        assert(init.len() == (ms.len() - 1) as nat);
    } else {
        assert(ms =~= Seq::empty());
    }
}

/// Every monster of the catalog is well formed and there are at most
/// `i32::MAX` of them.
pub open spec fn catalog_well_formed(ms: Seq<MonsterDefView>) -> bool {
    &&& ms.len() <= i32::MAX
    &&& forall|i: int| 0 <= i < ms.len() ==> monster_well_formed(#[trigger] ms[i])
}

/// Writing a well-formed catalog succeeds, and reading the bytes written
/// gives back the same monsters, with each name indexed to the last monster
/// that bears it.
pub proof fn lemma_catalog_roundtrip(ms: Seq<MonsterDefView>)
    requires
        catalog_well_formed(ms),
    ensures
        catalog_fits(ms),
        sp_catalog(ser_catalog(ms)) == Ok::<MonsterCatalogView, SaveError>(catalog_of(ms)),
{
    let d = ser_catalog(ms);
    assert(holds_at(d, 0, d)) by {
        assert(d.subrange(0, d.len() as int) =~= d);
    }
    lemma_holds_split(d, 0, le_bytes_i32(ms.len() as i32), ser_monsters(ms));
    lemma_i32_roundtrip(d, 0, ms.len() as i32);
    lemma_monsters_roundtrip(d, 4, ms);
}

proof fn lemma_field_step_consistent(d: Seq<u8>)
    ensures
        forall|q: int, k: int| #[trigger] field_step(d)(q, k) matches Ok((Some(f), _)) ==> field_consistent(f)
            && field_fits(f),
{
    assert forall|q: int, k: int| #[trigger] field_step(d)(q, k) matches Ok((Some(f), _)) ==> field_consistent(f)
        && field_fits(f) by {
        if let Ok((_, p1)) = sp_i32(d, q) {
            if let Ok((_, p2)) = sp_i32(d, p1) {
                lemma_read_string_fits(d, p2);
            }
        }
    }
}

proof fn lemma_string_step_fits(d: Seq<u8>)
    ensures
        forall|q: int, k: int| #[trigger] string_step(d)(q, k) matches Ok((Some(s), _)) ==> string_fits(s),
{
    assert forall|q: int, k: int| #[trigger] string_step(d)(q, k) matches Ok((Some(s), _)) ==> string_fits(s) by {
        lemma_read_string_fits(d, q);
    }
}

proof fn lemma_stats_fit(d: Seq<u8>, p: int)
    ensures
        sp_monster_stats(d, p) matches Ok((st, _)) ==> string_fits(st.texture) && string_fits(st.def),
{
    reveal(sp_monster_stats);
    if let Ok((_, p)) = sp_i32(d, p) {
        if let Ok((_, p)) = sp_i32(d, p) {
            if let Ok((_, p)) = sp_u32(d, p) {
                if let Ok((_, p)) = sp_i32(d, p) {
                    if let Ok((_, p)) = sp_i32(d, p) {
                        lemma_read_string_fits(d, p);
                        if let Ok((_, p)) = sp_string(d, p) {
                            lemma_read_string_fits(d, p);
                        }
                    }
                }
            }
        }
    }
}

proof fn lemma_texts_shape(d: Seq<u8>, q: int)
    ensures
        sp_monster_texts(d, q) matches Ok((t, _)) ==> string_fits(t.0) && t.1.len() == 20 && t.2.len() == 20
            && strings_fit(t.1) && strings_fit(t.2),
{
    reveal(sp_monster_texts);
    let fits = |s: Seq<char>| string_fits(s);
    lemma_string_step_fits(d);
    lemma_read_string_fits(d, q);
    if let Ok((_, p1)) = sp_string(d, q) {
        lemma_rep_exact(string_step(d), p1, 20);
        lemma_rep_all(string_step(d), p1, 20, fits);
        if let Ok((_, p2)) = rep(string_step(d), p1, 20) {
            lemma_rep_exact(string_step(d), p2, 20);
            lemma_rep_all(string_step(d), p2, 20, fits);
        }
    }
}

proof fn lemma_lists_shape(d: Seq<u8>, p: int)
    ensures
        sp_monster_lists(d, p) matches Ok((l, _)) ==> l.0.len() <= i32::MAX && l.1.len() <= i32::MAX
            && (forall|i: int| 0 <= i < l.0.len() ==> field_consistent(#[trigger] l.0[i]) && field_fits(l.0[i])),
{
    reveal(sp_monster_lists);
    let consistent = |f: MonsterFieldView| field_consistent(f) && field_fits(f);
    lemma_field_step_consistent(d);
    if let Ok((fc, p1)) = sp_i32(d, p) {
        lemma_rep_len(field_step(d), p1, fc as nat);
        lemma_rep_all(field_step(d), p1, fc as nat, consistent);
        if let Ok((_, p2)) = sp_counted(fc, field_step(d), p1) {
            if let Ok((gc, p3)) = sp_i32(d, p2) {
                lemma_rep_len(flag_step(d), p3, gc as nat);
            }
        }
    }
}

proof fn lemma_monster_shape_at(d: Seq<u8>, q: int)
    ensures
        sp_monster(d, q) matches Ok((m, _)) ==> monster_well_formed(m),
{
    lemma_texts_shape(d, q);
    if let Ok((_, p)) = sp_monster_texts(d, q) {
        lemma_stats_fit(d, p);
        if let Ok((_, p)) = sp_monster_stats(d, p) {
            lemma_lists_shape(d, p);
        }
    }
}

/// Whatever the bytes, a catalog read from them is well formed: every
/// monster has 20 titles and 20 descriptions, each field holds the kind of
/// payload that its data type announces, every string can be written back,
/// and there are at most `i32::MAX` monsters.
pub proof fn lemma_catalog_shape(d: Seq<u8>)
    ensures
        sp_catalog(d) matches Ok(c) ==> catalog_well_formed(c.monsters),
{
    let shaped = |m: MonsterDefView| monster_well_formed(m);
    assert forall|q: int, k: int| #[trigger] monster_step(d)(q, k) matches Ok((Some(m), _)) ==> shaped(m) by {
        lemma_monster_shape_at(d, q);
    }
    if let Ok((count, p)) = sp_i32(d, 0) {
        lemma_rep_len(monster_step(d), p, count as nat);
        lemma_rep_all(monster_step(d), p, count as nat, shaped);
    }
}

/// Saving a catalog that was read from bytes succeeds, and reading what was
/// saved gives back the same catalog.
pub proof fn lemma_catalog_reload(d: Seq<u8>)
    ensures
        sp_catalog(d) matches Ok(c) ==> catalog_fits(c.monsters) && sp_catalog(ser_catalog(c.monsters))
            == Ok::<MonsterCatalogView, SaveError>(c),
{
    lemma_catalog_shape(d);
    if let Ok(c) = sp_catalog(d) {
        lemma_catalog_roundtrip(c.monsters);
    }
}

/// `by_name` indexes the monsters by name: a name is present exactly when
/// some monster bears it, and then it gives the index of the last monster
/// bearing it.
pub proof fn lemma_name_index(ms: Seq<MonsterDefView>, k: Seq<char>)
    requires
        ms.len() <= i32::MAX,
    ensures
        name_index(ms).contains_key(k) <==> exists|i: int| 0 <= i < ms.len() && #[trigger] ms[i].name == k,
        name_index(ms).contains_key(k) ==> {
            let j = name_index(ms)[k] as int;
            &&& 0 <= j < ms.len()
            &&& ms[j].name == k
            &&& forall|i: int| j < i < ms.len() ==> #[trigger] ms[i].name != k
        },
    decreases ms.len(),
{
    if ms.len() > 0 {
        let init = ms.drop_last();
        lemma_name_index(init, k);
        if ms.last().name != k {
            if exists|i: int| 0 <= i < ms.len() && #[trigger] ms[i].name == k {
                let i = choose|i: int| 0 <= i < ms.len() && #[trigger] ms[i].name == k;
                assert(init[i].name == k);
            }
            if name_index(init).contains_key(k) {
                let j = name_index(init)[k] as int;
                assert(ms[j] == init[j]);
                assert forall|i: int| j < i < ms.len() implies #[trigger] ms[i].name != k by {
                    if i < init.len() {
                        assert(ms[i] == init[i]);
                    }
                }
            }
        } else {
            assert(ms[ms.len() - 1].name == k);
        }
    }
}

proof fn lemma_reads_below_steps(d: Seq<u8>, d2: Seq<u8>)
    ensures
        forall|q: int, k: int| reads_below(#[trigger] field_step(d)(q, k), field_step(d2)(q, k), q, d, d2),
        forall|q: int, k: int| reads_below(#[trigger] string_step(d)(q, k), string_step(d2)(q, k), q, d, d2),
        forall|q: int, k: int| reads_below(#[trigger] flag_step(d)(q, k), flag_step(d2)(q, k), q, d, d2),
{
    broadcast use lemma_agree_below;

    lemma_reads_below_u32(d, d2);
    lemma_reads_below_string(d, d2);
    assert forall|q: int, k: int| reads_below(#[trigger] field_step(d)(q, k), field_step(d2)(q, k), q, d, d2) by {
        if sp_field(d, q) is Ok {
            let p1 = sp_i32(d, q)->Ok_0.1;
            let (t, p2) = sp_i32(d, p1)->Ok_0;
            assert(reads_below(sp_field_value(d, p2, t), sp_field_value(d2, p2, t), p2, d, d2));
        }
    }
    assert forall|q: int, k: int| reads_below(#[trigger] string_step(d)(q, k), string_step(d2)(q, k), q, d, d2) by {
        assert(reads_below(sp_string(d, q), sp_string(d2, q), q, d, d2));
    }
    assert forall|q: int, k: int| reads_below(#[trigger] flag_step(d)(q, k), flag_step(d2)(q, k), q, d, d2) by {
        assert(reads_below(sp_i32(d, q), sp_i32(d2, q), q, d, d2));
    }
}

proof fn lemma_reads_below_texts(d: Seq<u8>, d2: Seq<u8>)
    ensures
        forall|p: int| reads_below(#[trigger] sp_monster_texts(d, p), sp_monster_texts(d2, p), p, d, d2),
{
    broadcast use lemma_agree_below;

    lemma_reads_below_string(d, d2);
    lemma_reads_below_steps(d, d2);
    assert forall|p: int| reads_below(#[trigger] sp_monster_texts(d, p), sp_monster_texts(d2, p), p, d, d2) by {
        reveal(sp_monster_texts);
        if sp_monster_texts(d, p) is Ok {
            let p1 = sp_string(d, p)->Ok_0.1;
            lemma_reads_below_rep(string_step(d), string_step(d2), p1, 20, d, d2);
            let p2 = rep(string_step(d), p1, 20)->Ok_0.1;
            lemma_reads_below_rep(string_step(d), string_step(d2), p2, 20, d, d2);
        }
    }
}

proof fn lemma_reads_below_stats(d: Seq<u8>, d2: Seq<u8>)
    ensures
        forall|p: int| reads_below(#[trigger] sp_monster_stats(d, p), sp_monster_stats(d2, p), p, d, d2),
{
    broadcast use lemma_agree_below;

    lemma_reads_below_u32(d, d2);
    lemma_reads_below_string(d, d2);
    assert forall|p: int| reads_below(#[trigger] sp_monster_stats(d, p), sp_monster_stats(d2, p), p, d, d2) by {
        reveal(sp_monster_stats);
    }
}

proof fn lemma_reads_below_lists(d: Seq<u8>, d2: Seq<u8>)
    ensures
        forall|p: int| reads_below(#[trigger] sp_monster_lists(d, p), sp_monster_lists(d2, p), p, d, d2),
{
    broadcast use lemma_agree_below;

    lemma_reads_below_u32(d, d2);
    lemma_reads_below_steps(d, d2);
    assert forall|p: int| reads_below(#[trigger] sp_monster_lists(d, p), sp_monster_lists(d2, p), p, d, d2) by {
        reveal(sp_monster_lists);
        if sp_monster_lists(d, p) is Ok {
            let (fc, p1) = sp_i32(d, p)->Ok_0;
            lemma_reads_below_counted(fc, field_step(d), field_step(d2), p1, d, d2);
            let p2 = sp_counted(fc, field_step(d), p1)->Ok_0.1;
            let (gc, p3) = sp_i32(d, p2)->Ok_0;
            lemma_reads_below_counted(gc, flag_step(d), flag_step(d2), p3, d, d2);
        }
    }
}

proof fn lemma_reads_below_monster(d: Seq<u8>, d2: Seq<u8>)
    ensures
        forall|p: int| reads_below(#[trigger] sp_monster(d, p), sp_monster(d2, p), p, d, d2),
{
    broadcast use lemma_agree_below;

    lemma_reads_below_texts(d, d2);
    lemma_reads_below_stats(d, d2);
    lemma_reads_below_lists(d, d2);
    assert forall|p: int| reads_below(#[trigger] sp_monster(d, p), sp_monster(d2, p), p, d, d2) by {
        assert(reads_below(sp_monster_texts(d, p), sp_monster_texts(d2, p), p, d, d2));
        if sp_monster(d, p) is Ok {
            let p1 = sp_monster_texts(d, p)->Ok_0.1;
            assert(reads_below(sp_monster_stats(d, p1), sp_monster_stats(d2, p1), p1, d, d2));
            let p2 = sp_monster_stats(d, p1)->Ok_0.1;
            assert(reads_below(sp_monster_lists(d, p2), sp_monster_lists(d2, p2), p2, d, d2));
            let q = sp_monster(d, p)->Ok_0.1;
            if agree(d, d2, q) {
                lemma_agree_below(d, d2, q, p2);
                lemma_agree_below(d, d2, q, p1);
                assert(sp_monster_texts(d2, p) == sp_monster_texts(d, p));
                assert(sp_monster_stats(d2, p1) == sp_monster_stats(d, p1));
                assert(sp_monster_lists(d2, p2) == sp_monster_lists(d, p2));
            }
            if p <= d2.len() < q && agree(d, d2, d2.len() as int) {
                if d2.len() < p1 {
                    assert(sp_monster_texts(d2, p) is Err);
                } else if d2.len() < p2 {
                    lemma_agree_below(d, d2, d2.len() as int, p1);
                    assert(sp_monster_texts(d2, p) == sp_monster_texts(d, p));
                    assert(sp_monster_stats(d2, p1) is Err);
                } else {
                    lemma_agree_below(d, d2, d2.len() as int, p1);
                    lemma_agree_below(d, d2, d2.len() as int, p2);
                    assert(sp_monster_texts(d2, p) == sp_monster_texts(d, p));
                    assert(sp_monster_stats(d2, p1) == sp_monster_stats(d, p1));
                    assert(sp_monster_lists(d2, p2) is Err);
                }
            }
        }
    }
}

/// A catalog file is read only up to the end of its last monster: bytes
/// after it change nothing, and the file cut anywhere before that end is
/// refused.
pub proof fn lemma_catalog_reads_below(d: Seq<u8>, d2: Seq<u8>)
    ensures
        reads_below(sp_catalog_file(d), sp_catalog_file(d2), 0, d, d2),
{
    broadcast use lemma_agree_below;

    lemma_reads_below_u32(d, d2);
    lemma_reads_below_monster(d, d2);
    assert forall|q: int, k: int| reads_below(#[trigger] monster_step(d)(q, k), monster_step(d2)(q, k), q, d, d2) by {
        assert(reads_below(sp_monster(d, q), sp_monster(d2, q), q, d, d2));
    }
    if sp_catalog_file(d) is Ok {
        let (count, p) = sp_i32(d, 0)->Ok_0;
        lemma_reads_below_counted(count, monster_step(d), monster_step(d2), p, d, d2);
    }
}

/// Bytes after the last monster of a catalog never change what is read,
/// and the file cut anywhere before the end of its last monster is refused.
pub proof fn lemma_catalog_trailing_and_cut(d: Seq<u8>, extra: Seq<u8>, k: int)
    requires
        0 <= k <= d.len(),
    ensures
        sp_catalog(d) is Ok ==> sp_catalog(d + extra) == sp_catalog(d),
        sp_catalog_file(d) matches Ok((_, m)) && k < m ==> sp_catalog(d.take(k)) is Err,
{
    lemma_catalog_reads_below(d, d + extra);
    lemma_catalog_reads_below(d, d.take(k));
    crate::reader::lemma_reads_below_extend_take(sp_catalog_file(d), sp_catalog_file(d + extra), sp_catalog_file(d.take(k)), 0, d, extra, k);
}

proof fn lemma_field_canonical(d: Seq<u8>)
    ensures
        forall|p: int| #[trigger] sp_field(d, p) matches Ok((f, q)) ==> canonical_at(d, p, q, ser_field(f)),
{
    lemma_read_numbers_canonical(d);
    lemma_read_string_canonical(d);
    assert forall|p: int| #[trigger] sp_field(d, p) matches Ok((f, q)) ==> canonical_at(d, p, q, ser_field(f)) by {
        if let Ok((f, q)) = sp_field(d, p) {
            let p1 = sp_i32(d, p)->Ok_0.1;
            let p2 = sp_i32(d, p1)->Ok_0.1;
            lemma_canonical_join(d, p, p1, p2, le_bytes_i32(f.id), le_bytes_i32(f.data_type));
            lemma_canonical_join(d, p, p2, q, le_bytes_i32(f.id) + le_bytes_i32(f.data_type), ser_field_value(f.value));
        }
    }
}

proof fn lemma_strings_canonical(d: Seq<u8>, p: int, n: nat)
    requires
        0 <= p <= d.len(),
    ensures
        rep(string_step(d), p, n) matches Ok((ss, q)) ==> q <= d.len() && canonical_at(d, p, q, ser_strings(ss)),
    decreases n,
{
    lemma_reads_below_steps(d, d);
    lemma_reads_below_rep(string_step(d), string_step(d), p, n, d, d);
    lemma_read_string_canonical(d);
    if n > 0 {
        lemma_strings_canonical(d, p, (n - 1) as nat);
        if let Ok((ss, q)) = rep(string_step(d), p, n) {
            let (prev, q1) = rep(string_step(d), p, (n - 1) as nat)->Ok_0;
            let (x, q2) = sp_string(d, q1)->Ok_0;
            assert(ss == prev.push(x) && q == q2);
            assert(ss.drop_last() =~= prev);
            lemma_canonical_join(d, p, q1, q, ser_strings(prev), ser_string(ss.last()));
        }
    } else {
        assert(d.subrange(p, p) =~= Seq::<u8>::empty());
    }
}

proof fn lemma_fields_canonical(d: Seq<u8>, p: int, n: nat)
    requires
        0 <= p <= d.len(),
    ensures
        rep(field_step(d), p, n) matches Ok((fs, q)) ==> q <= d.len() && canonical_at(d, p, q, ser_fields(fs)),
    decreases n,
{
    lemma_reads_below_steps(d, d);
    lemma_reads_below_rep(field_step(d), field_step(d), p, n, d, d);
    lemma_field_canonical(d);
    if n > 0 {
        lemma_fields_canonical(d, p, (n - 1) as nat);
        if let Ok((fs, q)) = rep(field_step(d), p, n) {
            let (prev, q1) = rep(field_step(d), p, (n - 1) as nat)->Ok_0;
            let (x, q2) = sp_field(d, q1)->Ok_0;
            assert(fs == prev.push(x) && q == q2);
            assert(fs.drop_last() =~= prev);
            lemma_canonical_join(d, p, q1, q, ser_fields(prev), ser_field(fs.last()));
        }
    } else {
        assert(d.subrange(p, p) =~= Seq::<u8>::empty());
    }
}

proof fn lemma_flags_canonical(d: Seq<u8>, p: int, n: nat)
    requires
        0 <= p <= d.len(),
    ensures
        rep(flag_step(d), p, n) matches Ok((fl, q)) ==> q <= d.len() && canonical_at(d, p, q, ser_flags(fl)),
    decreases n,
{
    lemma_reads_below_steps(d, d);
    lemma_reads_below_rep(flag_step(d), flag_step(d), p, n, d, d);
    lemma_read_numbers_canonical(d);
    if n > 0 {
        lemma_flags_canonical(d, p, (n - 1) as nat);
        if let Ok((fl, q)) = rep(flag_step(d), p, n) {
            let (prev, q1) = rep(flag_step(d), p, (n - 1) as nat)->Ok_0;
            let (x, q2) = sp_i32(d, q1)->Ok_0;
            assert(fl == prev.push(x) && q == q2);
            assert(fl.drop_last() =~= prev);
            lemma_canonical_join(d, p, q1, q, ser_flags(prev), le_bytes_i32(fl.last()));
        }
    } else {
        assert(d.subrange(p, p) =~= Seq::<u8>::empty());
    }
}

proof fn lemma_texts_canonical(d: Seq<u8>, p: int)
    requires
        0 <= p <= d.len(),
    ensures
        sp_monster_texts(d, p) matches Ok((t, q)) ==> canonical_at(
            d,
            p,
            q,
            ser_string(t.0) + ser_strings(t.1) + ser_strings(t.2),
        ),
{
    reveal(sp_monster_texts);
    lemma_read_string_canonical(d);
    lemma_reads_below_string(d, d);
    if let Ok((t, q)) = sp_monster_texts(d, p) {
        let p1 = sp_string(d, p)->Ok_0.1;
        let p2 = rep(string_step(d), p1, 20)->Ok_0.1;
        lemma_strings_canonical(d, p1, 20);
        lemma_strings_canonical(d, p2, 20);
        lemma_canonical_join(d, p, p1, p2, ser_string(t.0), ser_strings(t.1));
        lemma_canonical_join(d, p, p2, q, ser_string(t.0) + ser_strings(t.1), ser_strings(t.2));
    }
}

#[verifier::rlimit(60)]
proof fn lemma_stats_canonical(d: Seq<u8>, p: int)
    ensures
        sp_monster_stats(d, p) matches Ok((st, q)) ==> canonical_at(
            d,
            p,
            q,
            le_bytes_i32(st.type_) + le_bytes_i32(st.sub_type) + le_bytes_u32(st.cost) + le_bytes_i32(st.img)
                + le_bytes_i32(st.alt_img) + ser_string(st.texture) + ser_string(st.def) + le_bytes_i32(
                st.box_width,
            ) + le_bytes_i32(st.box_height) + le_bytes_i32(st.box_sub_height) + le_bytes_i32(
                st.shadow_width,
            ) + le_bytes_i32(st.shadow_height),
        ),
{
    reveal(sp_monster_stats);
    lemma_read_numbers_canonical(d);
    lemma_read_string_canonical(d);
    if let Ok((st, q)) = sp_monster_stats(d, p) {
        let p1 = sp_i32(d, p)->Ok_0.1;
        let p2 = sp_i32(d, p1)->Ok_0.1;
        let p3 = sp_u32(d, p2)->Ok_0.1;
        let p4 = sp_i32(d, p3)->Ok_0.1;
        let p5 = sp_i32(d, p4)->Ok_0.1;
        let p6 = sp_string(d, p5)->Ok_0.1;
        let p7 = sp_string(d, p6)->Ok_0.1;
        let p8 = sp_i32(d, p7)->Ok_0.1;
        let p9 = sp_i32(d, p8)->Ok_0.1;
        let p10 = sp_i32(d, p9)->Ok_0.1;
        let p11 = sp_i32(d, p10)->Ok_0.1;
        let b0 = le_bytes_i32(st.type_);
        let b1 = le_bytes_i32(st.sub_type);
        let b2 = le_bytes_u32(st.cost);
        let b3 = le_bytes_i32(st.img);
        let b4 = le_bytes_i32(st.alt_img);
        let b5 = ser_string(st.texture);
        let b6 = ser_string(st.def);
        let b7 = le_bytes_i32(st.box_width);
        let b8 = le_bytes_i32(st.box_height);
        let b9 = le_bytes_i32(st.box_sub_height);
        let b10 = le_bytes_i32(st.shadow_width);
        let b11 = le_bytes_i32(st.shadow_height);
        lemma_canonical_join(d, p, p1, p2, b0, b1);
        lemma_canonical_join(d, p, p2, p3, b0 + b1, b2);
        lemma_canonical_join(d, p, p3, p4, b0 + b1 + b2, b3);
        lemma_canonical_join(d, p, p4, p5, b0 + b1 + b2 + b3, b4);
        lemma_canonical_join(d, p, p5, p6, b0 + b1 + b2 + b3 + b4, b5);
        lemma_canonical_join(d, p, p6, p7, b0 + b1 + b2 + b3 + b4 + b5, b6);
        lemma_canonical_join(d, p, p7, p8, b0 + b1 + b2 + b3 + b4 + b5 + b6, b7);
        lemma_canonical_join(d, p, p8, p9, b0 + b1 + b2 + b3 + b4 + b5 + b6 + b7, b8);
        lemma_canonical_join(d, p, p9, p10, b0 + b1 + b2 + b3 + b4 + b5 + b6 + b7 + b8, b9);
        lemma_canonical_join(d, p, p10, p11, b0 + b1 + b2 + b3 + b4 + b5 + b6 + b7 + b8 + b9, b10);
        lemma_canonical_join(d, p, p11, q, b0 + b1 + b2 + b3 + b4 + b5 + b6 + b7 + b8 + b9 + b10, b11);
    }
}

proof fn lemma_lists_canonical(d: Seq<u8>, p: int)
    requires
        0 <= p <= d.len(),
    ensures
        sp_monster_lists(d, p) matches Ok((l, q)) ==> canonical_at(
            d,
            p,
            q,
            le_bytes_i32(l.0.len() as i32) + ser_fields(l.0) + le_bytes_i32(l.1.len() as i32) + ser_flags(l.1),
        ),
{
    reveal(sp_monster_lists);
    lemma_read_numbers_canonical(d);
    lemma_field_step_consistent(d);
    if let Ok((l, q)) = sp_monster_lists(d, p) {
        let (fc, p1) = sp_i32(d, p)->Ok_0;
        let p2 = rep(field_step(d), p1, fc as nat)->Ok_0.1;
        let (lc, p3) = sp_i32(d, p2)->Ok_0;
        lemma_rep_exact(field_step(d), p1, fc as nat);
        lemma_rep_exact(flag_step(d), p3, lc as nat);
        lemma_fields_canonical(d, p1, fc as nat);
        lemma_flags_canonical(d, p3, lc as nat);
        let b0 = le_bytes_i32(l.0.len() as i32);
        let b1 = ser_fields(l.0);
        let b2 = le_bytes_i32(l.1.len() as i32);
        let b3 = ser_flags(l.1);
        assert(b0 == le_bytes_i32(fc));
        assert(b2 == le_bytes_i32(lc));
        lemma_canonical_join(d, p, p1, p2, b0, b1);
        lemma_canonical_join(d, p, p2, p3, b0 + b1, b2);
        lemma_canonical_join(d, p, p3, q, b0 + b1 + b2, b3);
    }
}

proof fn lemma_monster_canonical(d: Seq<u8>, p: int)
    requires
        0 <= p <= d.len(),
    ensures
        sp_monster(d, p) matches Ok((m, q)) ==> q <= d.len() && canonical_at(d, p, q, ser_monster(m)),
{
    lemma_reads_below_monster(d, d);
    lemma_reads_below_texts(d, d);
    lemma_reads_below_stats(d, d);
    if let Ok((m, q)) = sp_monster(d, p) {
        let (t, p1) = sp_monster_texts(d, p)->Ok_0;
        let (st, p2) = sp_monster_stats(d, p1)->Ok_0;
        lemma_texts_canonical(d, p);
        lemma_stats_canonical(d, p1);
        lemma_lists_canonical(d, p2);
        assert(ser_monster_texts(m) == ser_string(t.0) + ser_strings(t.1) + ser_strings(t.2));
        lemma_canonical_join(d, p, p1, p2, ser_monster_texts(m), ser_monster_stats(m));
        lemma_canonical_join(d, p, p2, q, ser_monster_texts(m) + ser_monster_stats(m), ser_monster_lists(m));
    }
}

proof fn lemma_monsters_canonical(d: Seq<u8>, p: int, n: nat)
    requires
        0 <= p <= d.len(),
    ensures
        rep(monster_step(d), p, n) matches Ok((ms, q)) ==> q <= d.len() && canonical_at(d, p, q, ser_monsters(ms)),
    decreases n,
{
    if n > 0 {
        lemma_monsters_canonical(d, p, (n - 1) as nat);
        if let Ok((ms, q)) = rep(monster_step(d), p, n) {
            let (prev, q1) = rep(monster_step(d), p, (n - 1) as nat)->Ok_0;
            let (x, q2) = sp_monster(d, q1)->Ok_0;
            lemma_monster_canonical(d, q1);
            assert(ms == prev.push(x) && q == q2);
            assert(ms.drop_last() =~= prev);
            lemma_canonical_join(d, p, q1, q, ser_monsters(prev), ser_monster(ms.last()));
        }
    } else {
        assert(d.subrange(p, p) =~= Seq::<u8>::empty());
    }
}

/// Saving a catalog that was read from the first `m` bytes of `d` succeeds
/// and gives at most `m` bytes; where it gives exactly `m`, which is the
/// case when every string was stored with the shortest length prefix, it
/// gives back those very bytes.
pub proof fn lemma_catalog_rewrite(d: Seq<u8>)
    ensures
        sp_catalog_file(d) matches Ok((ms, m)) ==> {
            &&& catalog_fits(ms)
            &&& ser_catalog(ms).len() <= m
            &&& ser_catalog(ms).len() == m ==> ser_catalog(ms) == d.take(m)
        },
{
    lemma_catalog_shape(d);
    lemma_read_numbers_canonical(d);
    if let Ok((ms, m)) = sp_catalog_file(d) {
        let (count, p) = sp_i32(d, 0)->Ok_0;
        assert(forall|q: int, k: int| #[trigger] monster_step(d)(q, k) matches Ok((x, _)) ==> x is Some);
        lemma_rep_exact(monster_step(d), p, count as nat);
        lemma_monsters_canonical(d, p, count as nat);
        assert(le_bytes_i32(ms.len() as i32) == le_bytes_i32(count));
        lemma_canonical_join(d, 0, p, m, le_bytes_i32(count), ser_monsters(ms));
        if ser_catalog(ms).len() == m {
            assert(d.subrange(0, m) =~= d.take(m));
        }
    }
}

/// The data types of fields: a written field of type 0 holding an `f32`,
/// of type 1, 3, 4 or 12 holding a string, or of type 2, 5 to 11 or 13
/// holding an `i32` reads back as itself, whatever follows it; a field of
/// any type outside 0 to 13 is refused right after its type.
pub proof fn lemma_field_types(d: Seq<u8>, p: int, f: MonsterFieldView)
    requires
        holds_at(d, p, ser_field(f)),
        field_fits(f),
    ensures
        ({
            let t = f.data_type;
            ||| t == 0 && f.value is Float
            ||| (t == 1 || t == 3 || t == 4 || t == 12) && f.value is String
            ||| (t == 2 || t == 5 || t == 6 || t == 7 || t == 8 || t == 9 || t == 10 || t == 11 || t == 13)
                && f.value is Int
        }) ==> sp_field(d, p) == Ok::<(MonsterFieldView, int), (SaveError, int)>((f, p + ser_field(f).len())),
        (f.data_type < 0 || f.data_type > 13) ==> sp_field(d, p) == Err::<(MonsterFieldView, int), (SaveError, int)>(
            (SaveError::InvalidData(DataError::UnknownDataType(f.data_type)), p + 8),
        ),
{
    let a = le_bytes_i32(f.id);
    let b = le_bytes_i32(f.data_type);
    let c = ser_field_value(f.value);
    lemma_holds_split(d, p, a + b, c);
    lemma_holds_split(d, p, a, b);
    lemma_i32_roundtrip(d, p, f.id);
    lemma_i32_roundtrip(d, p + 4, f.data_type);
    if field_consistent(f) {
        lemma_field_roundtrip(d, p, f);
    }
}

} // verus!
