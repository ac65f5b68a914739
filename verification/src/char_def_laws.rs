//! What a character definition file holds but reading discards: the path,
//! the number after the texture name, each keyframe's duration and lerp
//! byte, and the text of its scripts. The whole contents of a file are read
//! here at spec level, and reading a definition is shown to keep of them
//! only what does not involve those values. A file is also written here
//! from a definition and chosen skipped values, and it reads back as that
//! definition.
use crate::char_def::{
    first_named_from, idle_frame_index, idle_ref_out_of_range, animation_step, frame_step, keyframe_step, part_step, script_step, sp_animation, sp_char_def,
    sp_char_def_file, sp_frame, sp_keyframe, sp_part, AnimationView, CharDefView, KeyFrame, Part,
};
use crate::error::{DataError, SaveError};
use crate::le::{le_bytes_i32, le_bytes_u32};
use crate::monster_catalog::{ser_strings, string_step, strings_fit};
use crate::reader::{
    filter_map, holds_at, lemma_filter_map_map, lemma_holds_split, lemma_i32_roundtrip, lemma_rep_lift, lemma_u32_roundtrip,
    lift_step, rep, sp_bool, sp_i32, sp_u8, Parsed,
};
use crate::text::{lemma_string_roundtrip, ser_string, sp_string, string_fits};
use vstd::prelude::*;

verus! {

/// The values of a keyframe that reading skips.
pub struct KeyFrameExtra {
    pub duration: i32,
    pub lerp: u8,
    pub scripts: Seq<Seq<char>>,
}

/// A keyframe's bytes: frame reference, duration, lerp byte, script count
/// and scripts.
pub open spec fn ser_keyframe(k: KeyFrame, x: KeyFrameExtra) -> Seq<u8> {
    le_bytes_i32(k.frame_ref) + le_bytes_i32(x.duration) + seq![x.lerp, x.scripts.len() as u8]
        + ser_strings(x.scripts)
}

/// A keyframe's skipped values can be written: at most 255 scripts, each
/// of which fits.
pub open spec fn extra_fits(x: KeyFrameExtra) -> bool {
    x.scripts.len() <= 255 && strings_fit(x.scripts)
}

proof fn lemma_scripts_roundtrip(d: Seq<u8>, p: int, ss: Seq<Seq<char>>)
    requires
        holds_at(d, p, ser_strings(ss)),
        strings_fit(ss),
    ensures
        rep(script_step(d), p, ss.len()) == Ok::<(Seq<()>, int), (SaveError, int)>(
            (Seq::empty(), p + ser_strings(ss).len()),
        ),
    decreases ss.len(),
{
    if ss.len() > 0 {
        let init = ss.drop_last();
        lemma_holds_split(d, p, ser_strings(init), ser_string(ss.last()));
        assert(strings_fit(init)) by {
            assert forall|i: int| 0 <= i < init.len() implies string_fits(#[trigger] init[i]) by {
                assert(init[i] == ss[i]);
            }
        }
        lemma_scripts_roundtrip(d, p, init);
        assert(string_fits(ss[ss.len() - 1]));
        lemma_string_roundtrip(d, p + ser_strings(init).len(), ss.last());
        assert(init.len() == (ss.len() - 1) as nat);
    }
}

proof fn lemma_keyframe_roundtrip(d: Seq<u8>, p: int, k: KeyFrame, x: KeyFrameExtra)
    requires
        holds_at(d, p, ser_keyframe(k, x)),
        extra_fits(x),
    ensures
        sp_keyframe(d, p) == Ok::<(KeyFrame, int), (SaveError, int)>((k, p + ser_keyframe(k, x).len())),
{
    reveal(sp_keyframe);
    let a = le_bytes_i32(k.frame_ref);
    let b = le_bytes_i32(x.duration);
    let c = seq![x.lerp, x.scripts.len() as u8];
    let s = ser_strings(x.scripts);
    lemma_holds_split(d, p, a + b + c, s);
    lemma_holds_split(d, p, a + b, c);
    lemma_holds_split(d, p, a, b);
    lemma_i32_roundtrip(d, p, k.frame_ref);
    lemma_i32_roundtrip(d, p + 4, x.duration);
    assert(d.subrange(p + 8, p + 10)[0] == d[p + 8]);
    assert(d.subrange(p + 8, p + 10)[1] == d[p + 9]);
    assert(sp_u8(d, p + 8) == Ok::<(u8, int), (SaveError, int)>((x.lerp, p + 9)));
    assert(sp_u8(d, p + 9) == Ok::<(u8, int), (SaveError, int)>((x.scripts.len() as u8, p + 10)));
    assert((x.scripts.len() as u8) as nat == x.scripts.len());
    lemma_scripts_roundtrip(d, p + 10, x.scripts);
}

/// The keyframes of an animation, each with its skipped values.
pub open spec fn ser_keyframes(ks: Seq<KeyFrame>, xs: Seq<KeyFrameExtra>) -> Seq<u8>
    decreases ks.len(),
{
    if ks.len() == 0 {
        Seq::empty()
    } else {
        ser_keyframes(ks.drop_last(), xs.drop_last()) + ser_keyframe(ks.last(), xs.last())
    }
}

/// An animation's bytes: its name, its keyframe count and its keyframes.
pub open spec fn ser_animation(a: AnimationView, xs: Seq<KeyFrameExtra>) -> Seq<u8> {
    ser_string(a.name) + le_bytes_i32(a.key_frames.len() as i32) + ser_keyframes(a.key_frames, xs)
}

pub open spec fn ser_animations(anims: Seq<AnimationView>, xss: Seq<Seq<KeyFrameExtra>>) -> Seq<u8>
    decreases anims.len(),
{
    if anims.len() == 0 {
        Seq::empty()
    } else {
        ser_animations(anims.drop_last(), xss.drop_last()) + ser_animation(anims.last(), xss.last())
    }
}

/// An animation that a file can hold, with one set of skipped values for
/// each of its keyframes: a non-empty name that fits, and at most 10000
/// keyframes.
pub open spec fn animation_writable(a: AnimationView, xs: Seq<KeyFrameExtra>) -> bool {
    &&& a.name.len() > 0
    &&& string_fits(a.name)
    &&& a.key_frames.len() <= 10000
    &&& xs.len() == a.key_frames.len()
    &&& forall|i: int| 0 <= i < xs.len() ==> extra_fits(#[trigger] xs[i])
}

proof fn lemma_keyframes_roundtrip(d: Seq<u8>, p: int, ks: Seq<KeyFrame>, xs: Seq<KeyFrameExtra>)
    requires
        holds_at(d, p, ser_keyframes(ks, xs)),
        xs.len() == ks.len(),
        forall|i: int| 0 <= i < xs.len() ==> extra_fits(#[trigger] xs[i]),
    ensures
        rep(keyframe_step(d), p, ks.len()) == Ok::<(Seq<KeyFrame>, int), (SaveError, int)>(
            (ks, p + ser_keyframes(ks, xs).len()),
        ),
    decreases ks.len(),
{
    if ks.len() > 0 {
        let init = ks.drop_last();
        let xinit = xs.drop_last();
        lemma_holds_split(d, p, ser_keyframes(init, xinit), ser_keyframe(ks.last(), xs.last()));
        assert forall|i: int| 0 <= i < xinit.len() implies extra_fits(#[trigger] xinit[i]) by {
            assert(xinit[i] == xs[i]);
        }
        lemma_keyframes_roundtrip(d, p, init, xinit);
        assert(extra_fits(xs[xs.len() - 1]));
        lemma_keyframe_roundtrip(d, p + ser_keyframes(init, xinit).len(), ks.last(), xs.last());
        assert(init.push(ks.last()) =~= ks);
        assert(init.len() == (ks.len() - 1) as nat);
    } else {
        assert(ks =~= Seq::empty());
    }
}

proof fn lemma_animation_roundtrip(d: Seq<u8>, p: int, a: AnimationView, xs: Seq<KeyFrameExtra>)
    requires
        holds_at(d, p, ser_animation(a, xs)),
        animation_writable(a, xs),
    ensures
        sp_animation(d, p) == Ok::<(Option<AnimationView>, int), (SaveError, int)>(
            (Some(a), p + ser_animation(a, xs).len()),
        ),
{
    reveal(sp_animation);
    let n = ser_string(a.name);
    let c = le_bytes_i32(a.key_frames.len() as i32);
    let k = ser_keyframes(a.key_frames, xs);
    lemma_holds_split(d, p, n + c, k);
    lemma_holds_split(d, p, n, c);
    lemma_string_roundtrip(d, p, a.name);
    lemma_i32_roundtrip(d, p + n.len(), a.key_frames.len() as i32);
    lemma_keyframes_roundtrip(d, p + n.len() + 4, a.key_frames, xs);
}

proof fn lemma_animations_roundtrip(d: Seq<u8>, p: int, anims: Seq<AnimationView>, xss: Seq<Seq<KeyFrameExtra>>)
    requires
        holds_at(d, p, ser_animations(anims, xss)),
        xss.len() == anims.len(),
        forall|i: int| 0 <= i < anims.len() ==> animation_writable(#[trigger] anims[i], xss[i]),
    ensures
        rep(animation_step(d), p, anims.len()) == Ok::<(Seq<AnimationView>, int), (SaveError, int)>(
            (anims, p + ser_animations(anims, xss).len()),
        ),
    decreases anims.len(),
{
    if anims.len() > 0 {
        let init = anims.drop_last();
        let xinit = xss.drop_last();
        lemma_holds_split(d, p, ser_animations(init, xinit), ser_animation(anims.last(), xss.last()));
        assert forall|i: int| 0 <= i < init.len() implies animation_writable(#[trigger] init[i], xinit[i]) by {
            assert(init[i] == anims[i] && xinit[i] == xss[i]);
        }
        lemma_animations_roundtrip(d, p, init, xinit);
        assert(animation_writable(anims[anims.len() - 1], xss[anims.len() - 1]));
        lemma_animation_roundtrip(d, p + ser_animations(init, xinit).len(), anims.last(), xss.last());
        assert(init.push(anims.last()) =~= anims);
        assert(init.len() == (anims.len() - 1) as nat);
    } else {
        assert(anims =~= Seq::empty());
    }
}

/// A part's bytes; the offsets are written only where the part has a
/// parent.
pub open spec fn ser_part(pt: Part) -> Seq<u8> {
    le_bytes_i32(pt.idx) + le_bytes_u32(pt.location.0) + le_bytes_u32(pt.location.1) + le_bytes_u32(
        pt.rotation,
    ) + le_bytes_u32(pt.scaling.0) + le_bytes_u32(pt.scaling.1) + le_bytes_i32(pt.flip) + le_bytes_i32(
        pt.parent,
    ) + if pt.parent > -1 {
        le_bytes_u32(pt.parent_loc_offset.0) + le_bytes_u32(pt.parent_loc_offset.1) + le_bytes_u32(
            pt.parent_rotation_offset,
        )
    } else {
        Seq::empty()
    }
}

/// A part that a file can hold: where it has no parent, its offsets are
/// zero.
pub open spec fn part_writable(pt: Part) -> bool {
    pt.parent <= -1 ==> pt.parent_loc_offset == (0u32, 0u32) && pt.parent_rotation_offset == 0
}

pub open spec fn ser_parts(ps: Seq<Part>) -> Seq<u8>
    decreases ps.len(),
{
    if ps.len() == 0 {
        Seq::empty()
    } else {
        ser_parts(ps.drop_last()) + ser_part(ps.last())
    }
}

/// A frame's bytes: a presence byte of 1, the part count and the parts.
pub open spec fn ser_frame(f: Seq<Part>) -> Seq<u8> {
    seq![1u8] + le_bytes_i32(f.len() as i32) + ser_parts(f)
}

pub open spec fn ser_frames(fs: Seq<Seq<Part>>) -> Seq<u8>
    decreases fs.len(),
{
    if fs.len() == 0 {
        Seq::empty()
    } else {
        ser_frames(fs.drop_last()) + ser_frame(fs.last())
    }
}

/// A frame that a file can hold: at most 32 parts, each writable.
pub open spec fn frame_writable(f: Seq<Part>) -> bool {
    f.len() <= 32 && forall|i: int| 0 <= i < f.len() ==> part_writable(#[trigger] f[i])
}

#[verifier::rlimit(40)]
proof fn lemma_part_roundtrip(d: Seq<u8>, p: int, pt: Part)
    requires
        holds_at(d, p, ser_part(pt)),
        part_writable(pt),
    ensures
        sp_part(d, p) == Ok::<(Part, int), (SaveError, int)>((pt, p + ser_part(pt).len())),
{
    reveal(sp_part);
    let b0 = le_bytes_i32(pt.idx);
    let b1 = le_bytes_u32(pt.location.0);
    let b2 = le_bytes_u32(pt.location.1);
    let b3 = le_bytes_u32(pt.rotation);
    let b4 = le_bytes_u32(pt.scaling.0);
    let b5 = le_bytes_u32(pt.scaling.1);
    let b6 = le_bytes_i32(pt.flip);
    let b7 = le_bytes_i32(pt.parent);
    let head = b0 + b1 + b2 + b3 + b4 + b5 + b6 + b7;
    let tail = if pt.parent > -1 {
        le_bytes_u32(pt.parent_loc_offset.0) + le_bytes_u32(pt.parent_loc_offset.1) + le_bytes_u32(
            pt.parent_rotation_offset,
        )
    } else {
        Seq::empty()
    };
    assert(ser_part(pt) == head + tail);
    lemma_holds_split(d, p, head, tail);
    lemma_holds_split(d, p, b0 + b1 + b2 + b3 + b4 + b5 + b6, b7);
    lemma_holds_split(d, p, b0 + b1 + b2 + b3 + b4 + b5, b6);
    lemma_holds_split(d, p, b0 + b1 + b2 + b3 + b4, b5);
    lemma_holds_split(d, p, b0 + b1 + b2 + b3, b4);
    lemma_holds_split(d, p, b0 + b1 + b2, b3);
    lemma_holds_split(d, p, b0 + b1, b2);
    lemma_holds_split(d, p, b0, b1);
    lemma_i32_roundtrip(d, p, pt.idx);
    lemma_u32_roundtrip(d, p + 4, pt.location.0);
    lemma_u32_roundtrip(d, p + 8, pt.location.1);
    lemma_u32_roundtrip(d, p + 12, pt.rotation);
    lemma_u32_roundtrip(d, p + 16, pt.scaling.0);
    lemma_u32_roundtrip(d, p + 20, pt.scaling.1);
    lemma_i32_roundtrip(d, p + 24, pt.flip);
    lemma_i32_roundtrip(d, p + 28, pt.parent);
    let q = p + 32;
    if pt.parent > -1 {
        let o0 = le_bytes_u32(pt.parent_loc_offset.0);
        let o1 = le_bytes_u32(pt.parent_loc_offset.1);
        let o2 = le_bytes_u32(pt.parent_rotation_offset);
        lemma_holds_split(d, q, o0 + o1, o2);
        lemma_holds_split(d, q, o0, o1);
        lemma_u32_roundtrip(d, q, pt.parent_loc_offset.0);
        lemma_u32_roundtrip(d, q + 4, pt.parent_loc_offset.1);
        lemma_u32_roundtrip(d, q + 8, pt.parent_rotation_offset);
    }
}

proof fn lemma_parts_roundtrip(d: Seq<u8>, p: int, ps: Seq<Part>)
    requires
        holds_at(d, p, ser_parts(ps)),
        forall|i: int| 0 <= i < ps.len() ==> part_writable(#[trigger] ps[i]),
    ensures
        rep(part_step(d), p, ps.len()) == Ok::<(Seq<Part>, int), (SaveError, int)>(
            (ps, p + ser_parts(ps).len()),
        ),
    decreases ps.len(),
{
    if ps.len() > 0 {
        let init = ps.drop_last();
        lemma_holds_split(d, p, ser_parts(init), ser_part(ps.last()));
        assert forall|i: int| 0 <= i < init.len() implies part_writable(#[trigger] init[i]) by {
            assert(init[i] == ps[i]);
        }
        lemma_parts_roundtrip(d, p, init);
        assert(part_writable(ps[ps.len() - 1]));
        lemma_part_roundtrip(d, p + ser_parts(init).len(), ps.last());
        assert(init.push(ps.last()) =~= ps);
        assert(init.len() == (ps.len() - 1) as nat);
    } else {
        assert(ps =~= Seq::empty());
    }
}

proof fn lemma_frame_roundtrip(d: Seq<u8>, p: int, k: int, f: Seq<Part>)
    requires
        holds_at(d, p, ser_frame(f)),
        frame_writable(f),
    ensures
        sp_frame(d, p, k) == Ok::<(Option<Seq<Part>>, int), (SaveError, int)>(
            (Some(f), p + ser_frame(f).len()),
        ),
{
    reveal(sp_frame);
    let a = seq![1u8];
    let c = le_bytes_i32(f.len() as i32);
    lemma_holds_split(d, p, a + c, ser_parts(f));
    lemma_holds_split(d, p, a, c);
    assert(d.subrange(p, p + 1)[0] == d[p]);
    assert(sp_bool(d, p) == Ok::<(bool, int), (SaveError, int)>((true, p + 1)));
    lemma_i32_roundtrip(d, p + 1, f.len() as i32);
    lemma_parts_roundtrip(d, p + 5, f);
}

proof fn lemma_frames_roundtrip(d: Seq<u8>, p: int, fs: Seq<Seq<Part>>)
    requires
        holds_at(d, p, ser_frames(fs)),
        forall|i: int| 0 <= i < fs.len() ==> frame_writable(#[trigger] fs[i]),
    ensures
        rep(frame_step(d), p, fs.len()) == Ok::<(Seq<Seq<Part>>, int), (SaveError, int)>(
            (fs, p + ser_frames(fs).len()),
        ),
    decreases fs.len(),
{
    if fs.len() > 0 {
        let init = fs.drop_last();
        lemma_holds_split(d, p, ser_frames(init), ser_frame(fs.last()));
        assert forall|i: int| 0 <= i < init.len() implies frame_writable(#[trigger] init[i]) by {
            assert(init[i] == fs[i]);
        }
        lemma_frames_roundtrip(d, p, init);
        assert(frame_writable(fs[fs.len() - 1]));
        lemma_frame_roundtrip(d, p + ser_frames(init).len(), init.len() as int, fs.last());
        assert(init.push(fs.last()) =~= fs);
        assert(init.len() == (fs.len() - 1) as nat);
    } else {
        assert(fs =~= Seq::empty());
    }
}

/// The values of a whole file that reading skips: the path, the number
/// after the texture name, and for each animation, those of each keyframe.
pub struct CharDefExtra {
    pub path: Seq<char>,
    pub spec_tex: i32,
    pub key_frames: Seq<Seq<KeyFrameExtra>>,
}

/// The bytes of a character definition file that holds `c` with the
/// skipped values `x`.
#[verifier::opaque]
pub open spec fn ser_char_def(c: CharDefView, x: CharDefExtra) -> Seq<u8> {
    ser_string(x.path) + ser_string(c.tex_name) + le_bytes_i32(x.spec_tex) + le_bytes_i32(
        c.animations.len() as i32,
    ) + ser_animations(c.animations, x.key_frames) + le_bytes_i32(c.frames.len() as i32) + ser_frames(
        c.frames,
    )
}

/// A definition that a file can hold with the skipped values `x`: strings
/// that fit, at most 2000 animations and 20000 frames, each writable, and
/// skipped values for every keyframe.
pub open spec fn char_def_writable(c: CharDefView, x: CharDefExtra) -> bool {
    &&& string_fits(x.path)
    &&& string_fits(c.tex_name)
    &&& c.animations.len() <= 2000
    &&& x.key_frames.len() == c.animations.len()
    &&& forall|i: int| 0 <= i < c.animations.len() ==> animation_writable(#[trigger] c.animations[i], x.key_frames[i])
    &&& c.frames.len() <= 20000
    &&& forall|i: int| 0 <= i < c.frames.len() ==> frame_writable(#[trigger] c.frames[i])
}

proof fn lemma_char_def_layout(c: CharDefView, x: CharDefExtra)
    ensures
        ({
            let d = ser_char_def(c, x);
            let q1 = ser_string(x.path).len() as int;
            let q2 = q1 + ser_string(c.tex_name).len();
            let q3 = q2 + 8;
            let q4 = q3 + ser_animations(c.animations, x.key_frames).len();
            &&& holds_at(d, 0, ser_string(x.path))
            &&& holds_at(d, q1, ser_string(c.tex_name))
            &&& holds_at(d, q2, le_bytes_i32(x.spec_tex))
            &&& holds_at(d, q2 + 4, le_bytes_i32(c.animations.len() as i32))
            &&& holds_at(d, q3, ser_animations(c.animations, x.key_frames))
            &&& holds_at(d, q4, le_bytes_i32(c.frames.len() as i32))
            &&& holds_at(d, q4 + 4, ser_frames(c.frames))
            &&& q4 + 4 + ser_frames(c.frames).len() == d.len()
        }),
{
    reveal(ser_char_def);
    let d = ser_char_def(c, x);
    let b0 = ser_string(x.path);
    let b1 = ser_string(c.tex_name);
    let b2 = le_bytes_i32(x.spec_tex);
    let b3 = le_bytes_i32(c.animations.len() as i32);
    let b4 = ser_animations(c.animations, x.key_frames);
    let b5 = le_bytes_i32(c.frames.len() as i32);
    let b6 = ser_frames(c.frames);
    assert(d.subrange(0, d.len() as int) =~= d);
    lemma_holds_split(d, 0, b0 + b1 + b2 + b3 + b4 + b5, b6);
    lemma_holds_split(d, 0, b0 + b1 + b2 + b3 + b4, b5);
    lemma_holds_split(d, 0, b0 + b1 + b2 + b3, b4);
    lemma_holds_split(d, 0, b0 + b1 + b2, b3);
    lemma_holds_split(d, 0, b0 + b1, b2);
    lemma_holds_split(d, 0, b0, b1);
}

/// A written character definition reads back as itself, the whole file
/// being read, whatever the skipped values.
#[verifier::rlimit(60)]
pub proof fn lemma_char_def_roundtrip(c: CharDefView, x: CharDefExtra)
    requires
        char_def_writable(c, x),
    ensures
        sp_char_def_file(ser_char_def(c, x)) == Ok::<(_, int), (SaveError, int)>(
            ((c.tex_name, c.animations, c.frames), ser_char_def(c, x).len() as int),
        ),
        sp_char_def(ser_char_def(c, x), c.name) == Ok::<CharDefView, SaveError>(c),
{
    let d = ser_char_def(c, x);
    lemma_char_def_layout(c, x);
    let q1 = ser_string(x.path).len() as int;
    let q2 = q1 + ser_string(c.tex_name).len();
    let q3 = q2 + 8;
    let q4 = q3 + ser_animations(c.animations, x.key_frames).len();
    lemma_string_roundtrip(d, 0, x.path);
    lemma_string_roundtrip(d, q1, c.tex_name);
    lemma_i32_roundtrip(d, q2, x.spec_tex);
    lemma_i32_roundtrip(d, q2 + 4, c.animations.len() as i32);
    lemma_animations_roundtrip(d, q3, c.animations, x.key_frames);
    lemma_i32_roundtrip(d, q4, c.frames.len() as i32);
    lemma_frames_roundtrip(d, q4 + 4, c.frames);
}

/// A keyframe as the file holds it, with the values that reading skips.
pub struct KeyFrameContents {
    pub frame_ref: i32,
    pub duration: i32,
    pub lerp: u8,
    pub scripts: Seq<Seq<char>>,
}

/// An animation entry as the file holds it; an entry with an empty name
/// has no keyframes.
pub struct AnimationEntry {
    pub name: Seq<char>,
    pub key_frames: Seq<KeyFrameContents>,
}

/// Everything a character definition file holds: the path, the texture
/// name, the number after it, every animation entry and every frame entry
/// (`None` for a frame marked absent).
pub struct CharDefContents {
    pub path: Seq<char>,
    pub tex_name: Seq<char>,
    pub spec_tex: i32,
    pub animations: Seq<AnimationEntry>,
    pub frames: Seq<Option<Seq<Part>>>,
}

/// A keyframe with its duration, lerp byte and scripts, in the layout that
/// [`sp_keyframe`] reads.
pub open spec fn sp_keyframe_contents(d: Seq<u8>, p: int) -> Parsed<KeyFrameContents> {
    match sp_i32(d, p) {
        Err(e) => Err(e),
        Ok((frame_ref, p)) => match sp_i32(d, p) {
            Err(e) => Err(e),
            Ok((duration, p)) => match sp_u8(d, p) {
                Err(e) => Err(e),
                Ok((lerp, p)) => match sp_u8(d, p) {
                    Err(e) => Err(e),
                    Ok((script_count, p)) => match rep(string_step(d), p, script_count as nat) {
                        Err(e) => Err(e),
                        Ok((scripts, p)) => Ok((KeyFrameContents { frame_ref, duration, lerp, scripts }, p)),
                    },
                },
            },
        },
    }
}

pub open spec fn keyframe_contents_step(d: Seq<u8>) -> spec_fn(int, int) -> Parsed<Option<KeyFrameContents>> {
    |p: int, k: int|
        match sp_keyframe_contents(d, p) {
            Ok((x, q)) => Ok((Some(x), q)),
            Err(e) => Err(e),
        }
}

/// An animation entry, in the layout that [`sp_animation`] reads.
pub open spec fn sp_animation_contents(d: Seq<u8>, p: int) -> Parsed<AnimationEntry> {
    match sp_string(d, p) {
        Err(e) => Err(e),
        Ok((name, p)) => if name.len() == 0 {
            Ok((AnimationEntry { name, key_frames: Seq::empty() }, p))
        } else {
            match sp_i32(d, p) {
                Err(e) => Err(e),
                Ok((count, p)) => if count < 0 || count > 10000 {
                    Err((SaveError::InvalidData(DataError::KeyFrameCount(count)), p))
                } else {
                    match rep(keyframe_contents_step(d), p, count as nat) {
                        Err(e) => Err(e),
                        Ok((key_frames, p)) => Ok((AnimationEntry { name, key_frames }, p)),
                    }
                },
            }
        },
    }
}

pub open spec fn animation_contents_step(d: Seq<u8>) -> spec_fn(int, int) -> Parsed<Option<AnimationEntry>> {
    |p: int, k: int|
        match sp_animation_contents(d, p) {
            Ok((x, q)) => Ok((Some(x), q)),
            Err(e) => Err(e),
        }
}

pub open spec fn frame_contents_step(d: Seq<u8>) -> spec_fn(int, int) -> Parsed<Option<Option<Seq<Part>>>> {
    |p: int, k: int|
        match sp_frame(d, p, k) {
            Ok((x, q)) => Ok((Some(x), q)),
            Err(e) => Err(e),
        }
}

/// The contents of a character definition file, in the layout that
/// [`sp_char_def_file`] reads.
pub open spec fn sp_char_def_contents(d: Seq<u8>) -> Parsed<CharDefContents> {
    match sp_string(d, 0) {
        Err(e) => Err(e),
        Ok((path, p)) => match sp_string(d, p) {
            Err(e) => Err(e),
            Ok((tex_name, p)) => match sp_i32(d, p) {
                Err(e) => Err(e),
                Ok((spec_tex, p)) => match sp_i32(d, p) {
                    Err(e) => Err(e),
                    Ok((anim_count, p)) => if anim_count < 0 || anim_count > 2000 {
                        Err((SaveError::InvalidData(DataError::AnimationCount(anim_count)), p))
                    } else {
                        match rep(animation_contents_step(d), p, anim_count as nat) {
                            Err(e) => Err(e),
                            Ok((animations, p)) => match sp_i32(d, p) {
                                Err(e) => Err(e),
                                Ok((frame_count, p)) => if frame_count < 0 || frame_count > 20000 {
                                    Err((SaveError::InvalidData(DataError::FrameCount(frame_count)), p))
                                } else {
                                    match rep(frame_contents_step(d), p, frame_count as nat) {
                                        Err(e) => Err(e),
                                        Ok((frames, p)) => Ok(
                                            (CharDefContents { path, tex_name, spec_tex, animations, frames }, p),
                                        ),
                                    }
                                },
                            },
                        }
                    },
                },
            },
        },
    }
}

/// The keyframe that reading keeps.
pub open spec fn keyframe_of(k: KeyFrameContents) -> Option<KeyFrame> {
    Some(KeyFrame { frame_ref: k.frame_ref })
}

/// The animation that reading keeps of an entry: none for an empty name.
pub open spec fn animation_of(a: AnimationEntry) -> Option<AnimationView> {
    if a.name.len() == 0 {
        None
    } else {
        Some(AnimationView { name: a.name, key_frames: filter_map(a.key_frames, |k: KeyFrameContents| keyframe_of(k)) })
    }
}

/// The frame that reading keeps of an entry: none for an absent frame.
pub open spec fn frame_of(f: Option<Seq<Part>>) -> Option<Seq<Part>> {
    f
}

/// What reading keeps of a file's contents: the texture name, the named
/// animations and the present frames.
pub open spec fn kept_of(c: CharDefContents) -> (Seq<char>, Seq<AnimationView>, Seq<Seq<Part>>) {
    (
        c.tex_name,
        filter_map(c.animations, |a: AnimationEntry| animation_of(a)),
        filter_map(c.frames, |f: Option<Seq<Part>>| frame_of(f)),
    )
}

proof fn lemma_keyframe_contents(d: Seq<u8>, p: int)
    ensures
        sp_keyframe(d, p) == match sp_keyframe_contents(d, p) {
            Ok((k, q)) => Ok((KeyFrame { frame_ref: k.frame_ref }, q)),
            Err(e) => Err::<(KeyFrame, int), (SaveError, int)>(e),
        },
{
    reveal(sp_keyframe);
    let g = |s: Seq<char>| None::<()>;
    assert forall|q: int, k: int| #[trigger] script_step(d)(q, k) == lift_step(string_step(d)(q, k), g) by {}
    if let Ok((fr, p1)) = sp_i32(d, p) {
        if let Ok((du, p2)) = sp_i32(d, p1) {
            if let Ok((le, p3)) = sp_u8(d, p2) {
                if let Ok((n, p4)) = sp_u8(d, p3) {
                    lemma_rep_lift(string_step(d), script_step(d), g, p4, n as nat);
                }
            }
        }
    }
}

proof fn lemma_animation_contents(d: Seq<u8>, p: int)
    ensures
        sp_animation(d, p) == match sp_animation_contents(d, p) {
            Ok((a, q)) => Ok((animation_of(a), q)),
            Err(e) => Err::<(Option<AnimationView>, int), (SaveError, int)>(e),
        },
{
    reveal(sp_animation);
    let g = |k: KeyFrameContents| keyframe_of(k);
    assert forall|q: int, k: int| #[trigger] keyframe_step(d)(q, k) == lift_step(keyframe_contents_step(d)(q, k), g) by {
        lemma_keyframe_contents(d, q);
    }
    if let Ok((name, p1)) = sp_string(d, p) {
        if name.len() != 0 {
            if let Ok((n, p2)) = sp_i32(d, p1) {
                if 0 <= n <= 10000 {
                    lemma_rep_lift(keyframe_contents_step(d), keyframe_step(d), g, p2, n as nat);
                }
            }
        }
    }
}

/// Reading a character definition keeps of the file's contents the
/// texture name, the named animations with their keyframes' frame
/// references, and the present frames; it fails exactly where reading the
/// contents fails, with the same error.
pub proof fn lemma_char_def_contents(d: Seq<u8>)
    ensures
        sp_char_def_file(d) == match sp_char_def_contents(d) {
            Ok((c, q)) => Ok((kept_of(c), q)),
            Err(e) => Err::<((Seq<char>, Seq<AnimationView>, Seq<Seq<Part>>), int), (SaveError, int)>(e),
        },
{
    let ga = |a: AnimationEntry| animation_of(a);
    let gf = |f: Option<Seq<Part>>| frame_of(f);
    assert forall|q: int, k: int| #[trigger] animation_step(d)(q, k) == lift_step(animation_contents_step(d)(q, k), ga) by {
        lemma_animation_contents(d, q);
    }
    assert forall|q: int, k: int| #[trigger] frame_step(d)(q, k) == lift_step(frame_contents_step(d)(q, k), gf) by {}
    if let Ok((path, p1)) = sp_string(d, 0) {
        if let Ok((tex, p2)) = sp_string(d, p1) {
            if let Ok((st, p3)) = sp_i32(d, p2) {
                if let Ok((na, p4)) = sp_i32(d, p3) {
                    if 0 <= na <= 2000 {
                        lemma_rep_lift(animation_contents_step(d), animation_step(d), ga, p4, na as nat);
                        if let Ok((anims, p5)) = rep(animation_contents_step(d), p4, na as nat) {
                            if let Ok((nf, p6)) = sp_i32(d, p5) {
                                if 0 <= nf <= 20000 {
                                    lemma_rep_lift(frame_contents_step(d), frame_step(d), gf, p6, nf as nat);
                                }
                            }
                        }
                    }
                }
            }
        }
    }
}

/// The contents with the values that reading skips cleared: no path, a
/// zero after the texture name, zero durations and lerp bytes, and empty
/// script texts (their number stays).
pub open spec fn without_skipped(c: CharDefContents) -> CharDefContents {
    CharDefContents {
        path: Seq::empty(),
        spec_tex: 0,
        animations: c.animations.map_values(|a: AnimationEntry| animation_without_skipped(a)),
        ..c
    }
}

pub open spec fn animation_without_skipped(a: AnimationEntry) -> AnimationEntry {
    AnimationEntry { name: a.name, key_frames: a.key_frames.map_values(|k: KeyFrameContents| keyframe_without_skipped(k)) }
}

pub open spec fn keyframe_without_skipped(k: KeyFrameContents) -> KeyFrameContents {
    KeyFrameContents {
        frame_ref: k.frame_ref,
        duration: 0,
        lerp: 0,
        scripts: k.scripts.map_values(|s: Seq<char>| Seq::<char>::empty()),
    }
}

/// The contents of the file `d` with the skipped values cleared, where
/// its contents can be read.
pub open spec fn contents_but_skipped(d: Seq<u8>) -> Option<CharDefContents> {
    match sp_char_def_contents(d) {
        Ok((c, _)) => Some(without_skipped(c)),
        Err(_) => None,
    }
}

proof fn lemma_kept_without_skipped(c: CharDefContents)
    ensures
        kept_of(without_skipped(c)) == kept_of(c),
{
    let gk = |k: KeyFrameContents| keyframe_of(k);
    let hk = |k: KeyFrameContents| keyframe_without_skipped(k);
    let ga = |a: AnimationEntry| animation_of(a);
    let ha = |a: AnimationEntry| animation_without_skipped(a);
    assert forall|a: AnimationEntry| #[trigger] ga(ha(a)) == ga(a) by {
        assert forall|k: KeyFrameContents| #[trigger] gk(hk(k)) == gk(k) by {}
        lemma_filter_map_map(a.key_frames, hk, gk);
    }
    lemma_filter_map_map(c.animations, ha, ga);
}

/// Reading discards the path, the number after the texture name, each
/// keyframe's duration and lerp byte, and the text of its scripts: two
/// files whose contents agree in everything else give the same character
/// definition, and either both can be read or neither.
pub proof fn lemma_char_def_ignores_discarded(d1: Seq<u8>, d2: Seq<u8>, name: Seq<char>)
    requires
        contents_but_skipped(d1) == contents_but_skipped(d2),
    ensures
        sp_char_def(d1, name) is Ok <==> contents_but_skipped(d1) is Some,
        sp_char_def(d2, name) is Ok <==> sp_char_def(d1, name) is Ok,
        sp_char_def(d1, name) is Ok ==> sp_char_def(d1, name) == sp_char_def(d2, name),
{
    lemma_char_def_contents(d1);
    lemma_char_def_contents(d2);
    if let Ok((c1, _)) = sp_char_def_contents(d1) {
        let (c2, _) = sp_char_def_contents(d2)->Ok_0;
        lemma_kept_without_skipped(c1);
        lemma_kept_without_skipped(c2);
        assert(kept_of(c1) == kept_of(c2));
    }
}

/// The first animation named `n` at or after `i` is at `a` where none
/// between `i` and `a` bears it and `a` does; there is none where no
/// animation from `i` on bears it.
proof fn lemma_first_named(anims: Seq<AnimationView>, n: Seq<char>, i: int, a: int)
    requires
        0 <= i,
        a < anims.len(),
        forall|j: int| i <= j < anims.len() && j < a ==> #[trigger] anims[j].name != n,
        a >= i ==> anims[a].name == n,
        a < i ==> forall|j: int| i <= j < anims.len() ==> #[trigger] anims[j].name != n,
    ensures
        first_named_from(anims, n, i) == if a >= i { Some(a) } else { None::<int> },
    decreases anims.len() - i,
{
    if i < anims.len() && i != a {
        lemma_first_named(anims, n, i + 1, a);
    }
}

/// The idle frame comes from the first keyframe of the idle animation,
/// which is the first animation named "idle", or the first animation where
/// none is so named: it is the frame whose index that keyframe's reference
/// is; where the reference is no frame's index, it is the first frame, the
/// reference being reported as out of range; with no keyframe or no frame
/// to fall back on there is none.
pub proof fn lemma_idle_frame_choice(c: CharDefView, a: int)
    requires
        0 <= a < c.animations.len(),
        ({
            let idle = seq!['i', 'd', 'l', 'e'];
            ||| c.animations[a].name == idle && forall|j: int| 0 <= j < a ==> #[trigger] c.animations[j].name != idle
            ||| a == 0 && forall|j: int| 0 <= j < c.animations.len() ==> #[trigger] c.animations[j].name != idle
        }),
    ensures
        c.animations[a].key_frames.len() == 0 ==> idle_frame_index(c) is None && idle_ref_out_of_range(c) is None,
        c.animations[a].key_frames.len() > 0 ==> {
            let r = c.animations[a].key_frames[0].frame_ref;
            &&& 0 <= r < c.frames.len() ==> idle_frame_index(c) == Some(r as int) && idle_ref_out_of_range(c) is None
            &&& !(0 <= r < c.frames.len()) ==> idle_ref_out_of_range(c) == Some(r)
            &&& !(0 <= r < c.frames.len()) && c.frames.len() > 0 ==> idle_frame_index(c) == Some(0int)
            &&& !(0 <= r < c.frames.len()) && c.frames.len() == 0 ==> idle_frame_index(c) is None
        },
{
    let idle = seq!['i', 'd', 'l', 'e'];
    if c.animations[a].name == idle && forall|j: int| 0 <= j < a ==> #[trigger] c.animations[j].name != idle {
        lemma_first_named(c.animations, idle, 0, a);
    } else {
        lemma_first_named(c.animations, idle, 0, -1);
    }
}

/// A character with no animation has no idle frame.
pub proof fn lemma_idle_frame_no_animation(c: CharDefView)
    requires
        c.animations.len() == 0,
    ensures
        idle_frame_index(c) is None,
        idle_ref_out_of_range(c) is None,
{
}

} // verus!
