use zsx_formats::char_def::{Animation, CharDef, Frame, KeyFrame, Part};
use zsx_formats::error::{DataError, SaveError};
use zsx_formats::monster_catalog::{MonsterCatalog, MonsterDef, MonsterField, MonsterFieldValue};
use zsx_formats::name_map::NameMap;
use zsx_formats::reader::ByteReader;
use zsx_formats::subflags::{SubFlagDef, SubFlagDefCatalog};
use zsx_formats::xtexture::XTextureMeta;

fn push_len(b: &mut Vec<u8>, len: usize) {
    let mut n = len;
    loop {
        if n < 128 {
            b.push(n as u8);
            break;
        }
        b.push((n % 128 + 128) as u8);
        n /= 128;
    }
}

fn push_str(b: &mut Vec<u8>, s: &str) {
    push_len(b, s.len());
    b.extend_from_slice(s.as_bytes());
}

fn push_i32(b: &mut Vec<u8>, v: i32) {
    b.extend_from_slice(&v.to_le_bytes());
}

fn push_f32(b: &mut Vec<u8>, v: f32) {
    b.extend_from_slice(&v.to_le_bytes());
}

fn flag_def_bytes(name: &str, vec: bool, rot: bool, flip: bool, i0: i32, i1: i32, options: i32) -> Vec<u8> {
    let mut b = Vec::new();
    push_str(&mut b, name);
    b.push(vec as u8);
    b.push(rot as u8);
    b.push(flip as u8);
    push_i32(&mut b, i0);
    push_i32(&mut b, i1);
    push_i32(&mut b, 7);
    push_i32(&mut b, options);
    push_i32(&mut b, 0);
    b
}

fn flag_catalog(defs: &[Vec<u8>]) -> Vec<u8> {
    let mut b = Vec::new();
    push_i32(&mut b, 100);
    push_i32(&mut b, defs.len() as i32);
    for d in defs {
        b.extend_from_slice(d);
    }
    b
}

#[test]
fn flag_defs_are_read_in_order() {
    let mut def = Vec::new();
    push_str(&mut def, "hat");
    def.extend_from_slice(&[1, 0, 2]);
    push_i32(&mut def, 3);
    push_i32(&mut def, -4);
    push_i32(&mut def, 5);
    push_i32(&mut def, 6);
    push_i32(&mut def, 2);
    push_str(&mut def, "a");
    push_str(&mut def, "b");
    push_str(&mut def, "c");
    push_str(&mut def, "dé");
    let data = flag_catalog(&[def, flag_def_bytes("second", false, false, false, 0, 0, 0)]);
    let cat = SubFlagDefCatalog::load_from_bytes(&data).unwrap();
    assert_eq!(cat.defs.len(), 2);
    let d: &SubFlagDef = &cat.defs[0];
    assert_eq!(d.name, "hat");
    assert!(d.has_vec && !d.has_rotation && d.has_flip);
    assert_eq!((d.index_type0, d.index_type1, d.meta, d.options), (3, -4, 5, 6));
    assert_eq!(d.item_list, vec![("a".to_string(), "b".to_string()), ("c".to_string(), "dé".to_string())]);
    assert_eq!(cat.defs[1].name, "second");
}

#[test]
fn flag_defs_refuse_other_versions() {
    let mut data = flag_catalog(&[]);
    data[0] = 99;
    assert!(matches!(
        SubFlagDefCatalog::load_from_bytes(&data),
        Err(SaveError::InvalidData(DataError::FlagDefsVersion(99)))
    ));
}

#[test]
fn flag_defs_truncated_or_negative() {
    let data = flag_catalog(&[flag_def_bytes("x", true, true, true, 1, 1, 1)]);
    assert!(matches!(
        SubFlagDefCatalog::load_from_bytes(&data[..data.len() - 1]),
        Err(SaveError::UnexpectedEof)
    ));
    let mut neg = Vec::new();
    push_i32(&mut neg, 100);
    push_i32(&mut neg, -1);
    assert!(matches!(
        SubFlagDefCatalog::load_from_bytes(&neg),
        Err(SaveError::InvalidData(DataError::NegativeCount(-1)))
    ));
    assert!(matches!(SubFlagDefCatalog::load_from_bytes(&[]), Err(SaveError::UnexpectedEof)));
}

fn part_bytes(b: &mut Vec<u8>, idx: i32, parent: i32) {
    push_i32(b, idx);
    push_f32(b, 1.5);
    push_f32(b, -2.0);
    push_f32(b, 0.25);
    push_f32(b, 1.0);
    push_f32(b, 2.0);
    push_i32(b, 1);
    push_i32(b, parent);
    if parent > -1 {
        push_f32(b, 3.0);
        push_f32(b, 4.0);
        push_f32(b, 0.5);
    }
}

fn char_def_bytes() -> Vec<u8> {
    let mut b = Vec::new();
    push_str(&mut b, "path/to/char");
    push_str(&mut b, "tex");
    push_i32(&mut b, 9);
    push_i32(&mut b, 3);
    // animation "walk" with two keyframes, the first with a script
    push_str(&mut b, "walk");
    push_i32(&mut b, 2);
    push_i32(&mut b, 1);
    push_i32(&mut b, 10);
    b.push(1);
    b.push(1);
    push_str(&mut b, "script");
    push_i32(&mut b, 0);
    push_i32(&mut b, 10);
    b.push(0);
    b.push(0);
    // an entry with an empty name: nothing follows it
    push_str(&mut b, "");
    // animation "idle"
    push_str(&mut b, "idle");
    push_i32(&mut b, 1);
    push_i32(&mut b, 2);
    push_i32(&mut b, 5);
    b.push(0);
    b.push(0);
    // frames: present, absent, present, present
    push_i32(&mut b, 4);
    b.push(1);
    push_i32(&mut b, 1);
    part_bytes(&mut b, 7, -1);
    b.push(0);
    b.push(1);
    push_i32(&mut b, 2);
    part_bytes(&mut b, 8, -1);
    part_bytes(&mut b, 9, 0);
    b.push(1);
    push_i32(&mut b, 0);
    b
}

#[test]
fn char_def_is_parsed() {
    let c = CharDef::load_from_bytes(&char_def_bytes(), "hero".to_string()).unwrap();
    assert_eq!(c.name, "hero");
    assert_eq!(c.tex_name, "tex");
    assert_eq!(c.animations.len(), 2);
    assert_eq!(c.animations[0].name, "walk");
    assert_eq!(c.animations[0].key_frames.iter().map(|k| k.frame_ref).collect::<Vec<_>>(), vec![1, 0]);
    assert_eq!(c.animations[1].name, "idle");
    assert_eq!(c.frames.len(), 3);
    assert_eq!(c.frames[0].parts.len(), 1);
    assert_eq!(c.frames[1].parts.len(), 2);
    assert_eq!(c.frames[2].parts.len(), 0);
    let root: Part = c.frames[1].parts[0];
    assert_eq!(root.idx, 8);
    assert_eq!(f32::from_bits(root.location.0), 1.5);
    assert_eq!(f32::from_bits(root.location.1), -2.0);
    assert_eq!(f32::from_bits(root.rotation), 0.25);
    assert_eq!(root.parent, -1);
    assert_eq!(root.parent_loc_offset, (0, 0));
    assert_eq!(root.parent_rotation_offset, 0);
    let child = c.frames[1].parts[1];
    assert_eq!(child.parent, 0);
    assert_eq!(f32::from_bits(child.parent_loc_offset.0), 3.0);
    assert_eq!(f32::from_bits(child.parent_loc_offset.1), 4.0);
    assert_eq!(f32::from_bits(child.parent_rotation_offset), 0.5);
    // the "idle" animation refers to frame 2
    let idle = c.idle_frame().unwrap();
    assert_eq!(idle.parts.len(), 0);
}

#[test]
fn char_def_count_limits() {
    let mut b = Vec::new();
    push_str(&mut b, "");
    push_str(&mut b, "");
    push_i32(&mut b, 0);
    push_i32(&mut b, 2001);
    assert!(matches!(
        CharDef::load_from_bytes(&b, String::new()),
        Err(SaveError::InvalidData(DataError::AnimationCount(2001)))
    ));
    let mut b = Vec::new();
    push_str(&mut b, "");
    push_str(&mut b, "");
    push_i32(&mut b, 0);
    push_i32(&mut b, 1);
    push_str(&mut b, "a");
    push_i32(&mut b, -1);
    assert!(matches!(
        CharDef::load_from_bytes(&b, String::new()),
        Err(SaveError::InvalidData(DataError::KeyFrameCount(-1)))
    ));
    let mut b = Vec::new();
    push_str(&mut b, "");
    push_str(&mut b, "");
    push_i32(&mut b, 0);
    push_i32(&mut b, 0);
    push_i32(&mut b, 20001);
    assert!(matches!(
        CharDef::load_from_bytes(&b, String::new()),
        Err(SaveError::InvalidData(DataError::FrameCount(20001)))
    ));
    let mut b = Vec::new();
    push_str(&mut b, "");
    push_str(&mut b, "");
    push_i32(&mut b, 0);
    push_i32(&mut b, 0);
    push_i32(&mut b, 3);
    b.push(0);
    b.push(1);
    push_i32(&mut b, 33);
    assert!(matches!(
        CharDef::load_from_bytes(&b, String::new()),
        Err(SaveError::InvalidData(DataError::PartsCount { count: 33, frame_index: 1 }))
    ));
}

fn frame(n: usize) -> Frame {
    let p = Part {
        idx: n as i32,
        location: (0, 0),
        rotation: 0,
        scaling: (0, 0),
        flip: 0,
        parent: -1,
        parent_loc_offset: (0, 0),
        parent_rotation_offset: 0,
    };
    Frame { parts: vec![p; n] }
}

fn anim(name: &str, refs: &[i32]) -> Animation {
    Animation { name: name.to_string(), key_frames: refs.iter().map(|&r| KeyFrame { frame_ref: r }).collect() }
}

#[test]
fn idle_frame_choices() {
    let mut c = CharDef {
        name: String::new(),
        tex_name: String::new(),
        animations: vec![anim("run", &[1]), anim("idle", &[2])],
        frames: vec![frame(1), frame(2), frame(3)],
    };
    assert_eq!(c.idle_frame().unwrap().parts.len(), 3);
    // no "idle": the first animation
    c.animations[1].name = "other".to_string();
    assert_eq!(c.idle_frame().unwrap().parts.len(), 2);
    // out of range: the first frame
    c.animations[0].key_frames[0].frame_ref = 7;
    assert_eq!(c.idle_frame().unwrap().parts.len(), 1);
    c.animations[0].key_frames[0].frame_ref = -1;
    assert_eq!(c.idle_frame().unwrap().parts.len(), 1);
    // no keyframe
    c.animations[0].key_frames.clear();
    assert!(c.idle_frame().is_none());
    // no animation
    c.animations.clear();
    assert!(c.idle_frame().is_none());
    // no frame to fall back on
    let c = CharDef {
        name: String::new(),
        tex_name: String::new(),
        animations: vec![anim("idle", &[0])],
        frames: vec![],
    };
    assert!(c.idle_frame().is_none());
}

fn monster(name: &str) -> MonsterDef {
    MonsterDef {
        name: name.to_string(),
        titles: (0..20).map(|i| format!("title {}", i)).collect(),
        descriptions: (0..20).map(|i| format!("desc {}", i)).collect(),
        type_: 3,
        sub_type: -2,
        cost: 12.5f32.to_bits(),
        img: 40,
        alt_img: 41,
        texture: "monsters".to_string(),
        def: "zombie.zsx".to_string(),
        box_width: 10,
        box_height: 20,
        box_sub_height: 5,
        shadow_width: 8,
        shadow_height: 2,
        fields: vec![
            MonsterField { id: 1, data_type: 0, value: MonsterFieldValue::Float(0.75f32.to_bits()) },
            MonsterField { id: 2, data_type: 4, value: MonsterFieldValue::String("loot".to_string()) },
            MonsterField { id: 3, data_type: 13, value: MonsterFieldValue::Int(-9) },
        ],
        flags: vec![1, 2, 3],
    }
}

#[test]
fn monster_catalog_roundtrip() {
    let cat = MonsterCatalog {
        monsters: vec![monster("zombie"), monster("bat"), monster("zombie")],
        by_name: NameMap::new(),
    };
    let bytes = cat.to_bytes().unwrap();
    let back = MonsterCatalog::load_from_bytes(&bytes).unwrap();
    assert_eq!(back.monsters.len(), 3);
    for (a, b) in cat.monsters.iter().zip(back.monsters.iter()) {
        assert_eq!(a.name, b.name);
        assert_eq!(a.titles, b.titles);
        assert_eq!(a.descriptions, b.descriptions);
        assert_eq!(a.cost, b.cost);
        assert_eq!(a.fields.len(), b.fields.len());
        assert_eq!(a.flags, b.flags);
        assert_eq!(a.box_sub_height, b.box_sub_height);
    }
    assert!(matches!(back.monsters[0].fields[1].value, MonsterFieldValue::String(ref s) if s == "loot"));
    assert!(matches!(back.monsters[0].fields[2].value, MonsterFieldValue::Int(-9)));
    assert_eq!(back.by_name.get("zombie"), Some(&2));
    assert_eq!(back.by_name.get("bat"), Some(&1));
    assert_eq!(back.by_name.get("ghost"), None);
    assert_eq!(back.to_bytes().unwrap(), bytes);
}

#[test]
fn monster_def_bytes_layout() {
    let mut m = monster("a");
    m.titles = vec![String::new(); 20];
    m.descriptions = vec![String::new(); 20];
    m.texture = String::new();
    m.def = String::new();
    m.fields = vec![];
    m.flags = vec![-1];
    let b = m.to_bytes().unwrap();
    let mut want = Vec::new();
    push_str(&mut want, "a");
    want.extend_from_slice(&[0u8; 40]);
    push_i32(&mut want, 3);
    push_i32(&mut want, -2);
    push_f32(&mut want, 12.5);
    push_i32(&mut want, 40);
    push_i32(&mut want, 41);
    want.extend_from_slice(&[0u8, 0u8]);
    for v in [10, 20, 5, 8, 2, 0, 1, -1] {
        push_i32(&mut want, v);
    }
    assert_eq!(b, want);
}

#[test]
fn monster_field_errors() {
    let mut m = monster("x");
    m.fields = vec![];
    let mut bytes = Vec::new();
    push_i32(&mut bytes, 1);
    let mut body = m.to_bytes().unwrap();
    // replace the empty field list (count 0) by one field of type 14
    let flags_tail = body.split_off(body.len() - 4 - 12 - 4);
    let _ = flags_tail;
    push_i32(&mut body, 1);
    push_i32(&mut body, 5);
    push_i32(&mut body, 14);
    bytes.extend_from_slice(&body);
    assert!(matches!(
        MonsterCatalog::load_from_bytes(&bytes),
        Err(SaveError::InvalidData(DataError::UnknownDataType(14)))
    ));
    let mut neg = Vec::new();
    push_i32(&mut neg, -3);
    assert!(matches!(
        MonsterCatalog::load_from_bytes(&neg),
        Err(SaveError::InvalidData(DataError::NegativeCount(-3)))
    ));
    let mut empty = Vec::new();
    push_i32(&mut empty, 0);
    let c = MonsterCatalog::load_from_bytes(&empty).unwrap();
    assert!(c.monsters.is_empty());
}

#[test]
fn strings_are_checked() {
    // invalid UTF-8 in a strict string
    let mut b = Vec::new();
    push_i32(&mut b, 100);
    push_i32(&mut b, 1);
    b.extend_from_slice(&[2, 0xff, 0xfe]);
    assert!(matches!(
        SubFlagDefCatalog::load_from_bytes(&b),
        Err(SaveError::InvalidData(DataError::InvalidUtf8))
    ));
    // a length prefix of six bytes
    let mut b = Vec::new();
    push_i32(&mut b, 100);
    push_i32(&mut b, 1);
    b.extend_from_slice(&[0x80, 0x80, 0x80, 0x80, 0x80, 0x00]);
    assert!(matches!(
        SubFlagDefCatalog::load_from_bytes(&b),
        Err(SaveError::InvalidData(DataError::StringLength))
    ));
    // a length beyond i32::MAX
    let mut b = Vec::new();
    push_i32(&mut b, 100);
    push_i32(&mut b, 1);
    b.extend_from_slice(&[0xff, 0xff, 0xff, 0xff, 0x0f]);
    assert!(matches!(
        SubFlagDefCatalog::load_from_bytes(&b),
        Err(SaveError::InvalidData(DataError::StringLength))
    ));
    // a multi-byte length prefix that the data cannot satisfy
    let mut b = Vec::new();
    push_i32(&mut b, 100);
    push_i32(&mut b, 1);
    b.extend_from_slice(&[0x80, 0x01, b'a']);
    assert!(matches!(SubFlagDefCatalog::load_from_bytes(&b), Err(SaveError::UnexpectedEof)));
}

#[test]
fn long_strings_roundtrip() {
    let mut m = monster("y");
    m.name = "n".repeat(300);
    let cat = MonsterCatalog { monsters: vec![m], by_name: NameMap::new() };
    let bytes = cat.to_bytes().unwrap();
    // the 300-byte name has a two-byte prefix
    assert_eq!(&bytes[4..6], &[0xac, 0x02]);
    let back = MonsterCatalog::load_from_bytes(&bytes).unwrap();
    assert_eq!(back.monsters[0].name.len(), 300);
}

fn xtexture_bytes(ttype: i32) -> Vec<u8> {
    let mut b = Vec::new();
    push_i32(&mut b, ttype);
    push_i32(&mut b, 3);
    b.push(0);
    b.push(1);
    push_str(&mut b, "cell");
    for v in [1, 2, 30, 40] {
        push_i32(&mut b, v);
    }
    push_f32(&mut b, 0.5);
    push_f32(&mut b, 1.5);
    push_i32(&mut b, 2);
    // sub-flag of def 0 (vec + rotation), of def 1 (flip + index0 + options)
    push_i32(&mut b, 0);
    push_f32(&mut b, 0.0);
    push_f32(&mut b, 0.0);
    push_f32(&mut b, 0.0);
    push_i32(&mut b, 1);
    b.push(1);
    push_i32(&mut b, 0);
    push_i32(&mut b, 0);
    match ttype {
        1 => {
            push_i32(&mut b, 99);
            push_i32(&mut b, 6);
        }
        2 | 4 => push_i32(&mut b, 6),
        _ => {}
    }
    b.push(1);
    push_str(&mut b, "c2");
    for v in [5, 6, 7, 8] {
        push_i32(&mut b, v);
    }
    push_f32(&mut b, 0.0);
    push_f32(&mut b, 0.0);
    push_i32(&mut b, -4);
    match ttype {
        1 => {
            push_i32(&mut b, 99);
            push_i32(&mut b, 7);
        }
        2 | 4 => push_i32(&mut b, 7),
        _ => {}
    }
    b
}

fn two_defs() -> SubFlagDefCatalog {
    let data = flag_catalog(&[
        flag_def_bytes("d0", true, true, false, 0, 0, 0),
        flag_def_bytes("d1", false, false, true, 1, 0, 1),
    ]);
    SubFlagDefCatalog::load_from_bytes(&data).unwrap()
}

#[test]
fn xtexture_cells_per_type() {
    let defs = two_defs();
    for (ttype, f1, f2) in [(0, 0, 0), (1, 6, 7), (2, 6, 7), (3, 0, 0), (4, 6, 7)] {
        let meta = XTextureMeta::load_from_bytes(&xtexture_bytes(ttype), &defs).unwrap();
        assert_eq!(meta.cells.len(), 3);
        assert!(meta.cells[0].is_none());
        let c = meta.cells[1].unwrap();
        assert_eq!(c.src_rect, (1, 2, 30, 40));
        assert_eq!(f32::from_bits(c.origin.0), 0.5);
        assert_eq!(f32::from_bits(c.origin.1), 1.5);
        assert_eq!(c.flags, f1);
        assert_eq!(meta.cells[2].unwrap().flags, f2);
        assert_eq!(meta.cells[2].unwrap().src_rect, (5, 6, 7, 8));
    }
}

#[test]
fn xtexture_subflag_index_checked() {
    let defs = two_defs();
    let mut b = Vec::new();
    push_i32(&mut b, 0);
    push_i32(&mut b, 1);
    b.push(1);
    push_str(&mut b, "c");
    for _ in 0..6 {
        push_i32(&mut b, 0);
    }
    push_i32(&mut b, 1);
    let mut bad = b.clone();
    push_i32(&mut bad, 2);
    assert!(matches!(
        XTextureMeta::load_from_bytes(&bad, &defs),
        Err(SaveError::InvalidData(DataError::FlagDefIndex { index: 2, max: 2 }))
    ));
    let mut neg = b.clone();
    push_i32(&mut neg, -1);
    assert!(matches!(
        XTextureMeta::load_from_bytes(&neg, &defs),
        Err(SaveError::InvalidData(DataError::FlagDefIndex { index: -1, max: 2 }))
    ));
    // def 1 needs six more bytes; five are there
    let mut short = b.clone();
    push_i32(&mut short, 1);
    short.extend_from_slice(&[0, 0, 0, 0, 0]);
    assert!(matches!(XTextureMeta::load_from_bytes(&short, &defs), Err(SaveError::UnexpectedEof)));
}

#[test]
fn master_bundle_names_and_replacement() {
    let defs = two_defs();
    let mut b = Vec::new();
    push_i32(&mut b, 3);
    push_str(&mut b, "first");
    b.extend_from_slice(&xtexture_bytes(0));
    // a name with a byte that is not UTF-8
    b.extend_from_slice(&[3, b'a', 0xff, b'b']);
    b.extend_from_slice(&xtexture_bytes(2));
    push_str(&mut b, "first");
    b.extend_from_slice(&xtexture_bytes(1));
    let map = XTextureMeta::load_all_from_master_bytes(&b, &defs).unwrap();
    assert_eq!(map.get("first").unwrap().cells[1].unwrap().flags, 6);
    assert_eq!(map.get("a\u{fffd}b").unwrap().cells.len(), 3);
    assert!(map.get("ab").is_none());
}

#[test]
fn name_map_replaces() {
    let mut m: NameMap<i32> = NameMap::new();
    assert!(m.get("k").is_none());
    m.insert("k".to_string(), 1);
    m.insert("j".to_string(), 2);
    m.insert("k".to_string(), 3);
    assert_eq!(m.get("k"), Some(&3));
    assert_eq!(m.get("j"), Some(&2));
}

#[test]
fn reload_gives_same_catalog() {
    let cat = MonsterCatalog { monsters: vec![monster("imp")], by_name: NameMap::new() };
    let mut bytes = cat.to_bytes().unwrap();
    // write the name's length prefix in a longer form: 3 as [0x83, 0x00]
    assert_eq!(&bytes[4..5], &[3]);
    bytes.splice(4..5, [0x83u8, 0x00u8]);
    bytes.push(0xee);
    let loaded = MonsterCatalog::load_from_bytes(&bytes).unwrap();
    assert_eq!(loaded.monsters[0].name, "imp");
    let written = loaded.to_bytes().unwrap();
    assert_ne!(written, bytes);
    let again = MonsterCatalog::load_from_bytes(&written).unwrap();
    assert_eq!(again.monsters[0].name, loaded.monsters[0].name);
    assert_eq!(again.monsters[0].titles, loaded.monsters[0].titles);
    assert_eq!(again.to_bytes().unwrap(), written);
}

#[test]
fn idle_frame_fallback_reports_reference() {
    let mut c = CharDef {
        name: String::new(),
        tex_name: String::new(),
        animations: vec![anim("idle", &[1])],
        frames: vec![frame(1), frame(2)],
    };
    assert_eq!(c.idle_frame_fallback(), None);
    c.animations[0].key_frames[0].frame_ref = 2;
    assert_eq!(c.idle_frame_fallback(), Some(2));
    assert_eq!(c.idle_frame().unwrap().parts.len(), 1);
    c.animations[0].key_frames[0].frame_ref = -3;
    assert_eq!(c.idle_frame_fallback(), Some(-3));
    c.animations[0].key_frames.clear();
    assert_eq!(c.idle_frame_fallback(), None);
}

#[test]
fn trailing_bytes_are_ignored_and_cuts_refused() {
    let data = char_def_bytes();
    let c = CharDef::load_from_bytes(&data, "hero".to_string()).unwrap();
    let mut longer = data.clone();
    longer.extend_from_slice(&[1, 2, 3, 4, 5]);
    let c2 = CharDef::load_from_bytes(&longer, "hero".to_string()).unwrap();
    assert_eq!(c2.tex_name, c.tex_name);
    assert_eq!(c2.frames.len(), c.frames.len());
    assert_eq!(c2.animations.len(), c.animations.len());
    for k in 0..data.len() {
        assert!(CharDef::load_from_bytes(&data[..k], "hero".to_string()).is_err());
    }

    let cat = MonsterCatalog { monsters: vec![monster("imp"), monster("elf")], by_name: NameMap::new() };
    let bytes = cat.to_bytes().unwrap();
    let mut longer = bytes.clone();
    longer.extend_from_slice(&[9, 9, 9]);
    let loaded = MonsterCatalog::load_from_bytes(&longer).unwrap();
    assert_eq!(loaded.to_bytes().unwrap(), bytes);
    for k in (0..bytes.len()).step_by(7) {
        assert!(MonsterCatalog::load_from_bytes(&bytes[..k]).is_err());
    }
    assert!(MonsterCatalog::load_from_bytes(&bytes[..bytes.len() - 1]).is_err());
}

#[test]
fn rewrite_gives_back_the_bytes_read() {
    let mut b = Vec::new();
    push_i32(&mut b, 1);
    push_str(&mut b, "wolf");
    for i in 0..20 {
        push_str(&mut b, &format!("t{}", i));
    }
    for i in 0..20 {
        push_str(&mut b, &format!("d{}", i));
    }
    push_i32(&mut b, 3);
    push_i32(&mut b, 4);
    push_f32(&mut b, 2.5);
    push_i32(&mut b, 5);
    push_i32(&mut b, 6);
    push_str(&mut b, "tex");
    push_str(&mut b, "def");
    for v in [7, 8, 9, 10, 11] {
        push_i32(&mut b, v);
    }
    push_i32(&mut b, 2);
    push_i32(&mut b, 100);
    push_i32(&mut b, 0);
    push_f32(&mut b, -1.0);
    push_i32(&mut b, 101);
    push_i32(&mut b, 3);
    push_str(&mut b, "bone");
    push_i32(&mut b, 1);
    push_i32(&mut b, 42);
    let cat = MonsterCatalog::load_from_bytes(&b).unwrap();
    assert_eq!(cat.monsters[0].name, "wolf");
    assert_eq!(cat.to_bytes().unwrap(), b);
}

fn char_def_bytes_with(path: &str, spec_tex: i32, duration: i32, lerp: u8, scripts: &[&str]) -> Vec<u8> {
    let mut b = Vec::new();
    push_str(&mut b, path);
    push_str(&mut b, "tex");
    push_i32(&mut b, spec_tex);
    push_i32(&mut b, 1);
    push_str(&mut b, "idle");
    push_i32(&mut b, 1);
    push_i32(&mut b, 0);
    push_i32(&mut b, duration);
    b.push(lerp);
    b.push(scripts.len() as u8);
    for s in scripts {
        push_str(&mut b, s);
    }
    push_i32(&mut b, 1);
    b.push(1);
    push_i32(&mut b, 2);
    part_bytes(&mut b, 3, -1);
    part_bytes(&mut b, 4, 0);
    b
}

#[test]
fn discarded_values_do_not_matter() {
    let a = char_def_bytes_with("a", 0, 10, 0, &[]);
    let b = char_def_bytes_with("a/much/longer/path", -7, 999, 1, &["first script", "second"]);
    assert_ne!(a, b);
    let ca = CharDef::load_from_bytes(&a, "c".to_string()).unwrap();
    let cb = CharDef::load_from_bytes(&b, "c".to_string()).unwrap();
    assert_eq!(format!("{:?}", ca), format!("{:?}", cb));
    assert_eq!(ca.animations[0].key_frames[0].frame_ref, 0);
    assert_eq!(ca.frames[0].parts.len(), 2);
    // the path's length written in a longer form
    let mut c = a.clone();
    assert_eq!(&c[0..2], &[1, b'a']);
    c.splice(0..1, [0x81u8, 0x80, 0x00]);
    let cc = CharDef::load_from_bytes(&c, "c".to_string()).unwrap();
    assert_eq!(format!("{:?}", ca), format!("{:?}", cc));
}

#[test]
fn field_and_monster_read_back_with_trailing_bytes() {
    let m = monster("ogre");
    for f in &m.fields {
        let mut buf = Vec::new();
        f.write(&mut buf).unwrap();
        let n = buf.len();
        buf.extend_from_slice(&[7, 7, 7]);
        let mut r = ByteReader::new(&buf);
        let back = MonsterField::read(&mut r).unwrap();
        assert_eq!(r.pos, n);
        assert_eq!(back.id, f.id);
        assert_eq!(back.data_type, f.data_type);
        assert_eq!(format!("{:?}", back.value), format!("{:?}", f.value));
    }
    let mut buf = Vec::new();
    m.write(&mut buf).unwrap();
    assert_eq!(buf, m.to_bytes().unwrap());
    let n = buf.len();
    buf.extend_from_slice(&[1, 2]);
    let mut r = ByteReader::new(&buf);
    let back = MonsterDef::read(&mut r).unwrap();
    assert_eq!(r.pos, n);
    assert_eq!(format!("{:?}", back), format!("{:?}", m));
}

#[test]
fn field_read_stops_after_unknown_type() {
    let data = [1u8, 0, 0, 0, 14, 0, 0, 0, 9, 9, 9, 9];
    let mut r = ByteReader::new(&data);
    let res = MonsterField::read(&mut r);
    assert!(matches!(res, Err(SaveError::InvalidData(DataError::UnknownDataType(14)))));
    assert_eq!(r.pos, 8);
}
