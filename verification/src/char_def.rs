//! Character definitions (`.zsx`): named animations made of keyframes that
//! refer to frames, and frames made of sprite parts.
use crate::error::{DataError, SaveError};
use crate::reader::{
    agree, discard, lemma_agree_below, lemma_reads_below_rep, lemma_reads_below_u32, lemma_reads_below_u8,
    lemma_rep_all, lemma_rep_err, lemma_rep_len, outcome, reads_below, rep, sp_bool, sp_i32, sp_u32, sp_u8,
    view_opt_result, view_result, ByteReader, Parsed,
};
use crate::text::{lemma_reads_below_string, sp_string};
use vstd::prelude::*;

verus! {

/// A single sprite part. The numbers that the file stores as `f32` are kept
/// as their IEEE-754 bit patterns (`f32::to_bits`).
#[derive(Debug, Clone, Copy)]
pub struct Part {
    /// Tile index on the sprite sheet (>= 0 is shown, < 0 is hidden).
    pub idx: i32,
    /// Bits of the position of the part's centre in character space.
    pub location: (u32, u32),
    /// Bits of the rotation in radians.
    pub rotation: u32,
    /// Bits of the scale.
    pub scaling: (u32, u32),
    /// Horizontal flip (0 is normal, any other value is flipped).
    pub flip: i32,
    /// Parent part index (-1 for a root part).
    pub parent: i32,
    /// Bits of the offset from the parent (zero where there is no parent).
    pub parent_loc_offset: (u32, u32),
    /// Bits of the rotation offset from the parent (zero where there is no parent).
    pub parent_rotation_offset: u32,
}

/// One animation frame, with at most 32 parts.
#[derive(Debug, Clone)]
pub struct Frame {
    pub parts: Vec<Part>,
}

/// A keyframe of an animation.
#[derive(Debug, Clone, Copy, PartialEq, Eq, Structural)]
pub struct KeyFrame {
    /// Index into [`CharDef::frames`] of the frame this keyframe shows.
    pub frame_ref: i32,
}

/// One named animation.
#[derive(Debug, Clone)]
pub struct Animation {
    pub name: String,
    pub key_frames: Vec<KeyFrame>,
}

/// A character definition.
#[derive(Debug, Clone)]
pub struct CharDef {
    pub name: String,
    pub tex_name: String,
    pub animations: Vec<Animation>,
    /// The frames that the file marks as present, in file order.
    pub frames: Vec<Frame>,
}

pub struct AnimationView {
    pub name: Seq<char>,
    pub key_frames: Seq<KeyFrame>,
}

pub struct CharDefView {
    pub name: Seq<char>,
    pub tex_name: Seq<char>,
    pub animations: Seq<AnimationView>,
    pub frames: Seq<Seq<Part>>,
}

impl View for Frame {
    type V = Seq<Part>;

    open spec fn view(&self) -> Seq<Part> {
        self.parts@
    }
}

impl View for Animation {
    type V = AnimationView;

    open spec fn view(&self) -> AnimationView {
        AnimationView { name: self.name@, key_frames: self.key_frames@ }
    }
}

impl View for CharDef {
    type V = CharDefView;

    open spec fn view(&self) -> CharDefView {
        CharDefView {
            name: self.name@,
            tex_name: self.tex_name@,
            animations: self.animations@.map_values(|a: Animation| a@),
            frames: self.frames@.map_values(|f: Frame| f@),
        }
    }
}

/// A string read only to be skipped.
pub open spec fn script_step(d: Seq<u8>) -> spec_fn(int, int) -> Parsed<Option<()>> {
    |p: int, k: int|
        match sp_string(d, p) {
            Ok((_, q)) => Ok((None, q)),
            Err(e) => Err(e),
        }
}

/// A keyframe: frame reference, duration, lerp flag, then a `u8` count of
/// script strings, which are skipped.
#[verifier::opaque]
pub open spec fn sp_keyframe(d: Seq<u8>, p: int) -> Parsed<KeyFrame> {
    match sp_i32(d, p) {
        Err(e) => Err(e),
        Ok((frame_ref, p)) => match sp_i32(d, p) {
            Err(e) => Err(e),
            Ok((_duration, p)) => match sp_u8(d, p) {
                Err(e) => Err(e),
                Ok((_lerp, p)) => match sp_u8(d, p) {
                    Err(e) => Err(e),
                    Ok((script_count, p)) => match rep(script_step(d), p, script_count as nat) {
                        Err(e) => Err(e),
                        Ok((_, p)) => Ok((KeyFrame { frame_ref }, p)),
                    },
                },
            },
        },
    }
}

pub open spec fn keyframe_step(d: Seq<u8>) -> spec_fn(int, int) -> Parsed<Option<KeyFrame>> {
    |p: int, k: int|
        match sp_keyframe(d, p) {
            Ok((x, q)) => Ok((Some(x), q)),
            Err(e) => Err(e),
        }
}

/// An animation entry: a name, and unless the name is empty, a keyframe
/// count in `0..=10000` and the keyframes. An entry with an empty name ends
/// after its name and gives no animation.
#[verifier::opaque]
pub open spec fn sp_animation(d: Seq<u8>, p: int) -> Parsed<Option<AnimationView>> {
    match sp_string(d, p) {
        Err(e) => Err(e),
        Ok((name, p)) => if name.len() == 0 {
            Ok((None, p))
        } else {
            match sp_i32(d, p) {
                Err(e) => Err(e),
                Ok((count, p)) => if count < 0 || count > 10000 {
                    Err((SaveError::InvalidData(DataError::KeyFrameCount(count)), p))
                } else {
                    match rep(keyframe_step(d), p, count as nat) {
                        Err(e) => Err(e),
                        Ok((key_frames, p)) => Ok((Some(AnimationView { name, key_frames }), p)),
                    }
                },
            }
        },
    }
}

pub open spec fn animation_step(d: Seq<u8>) -> spec_fn(int, int) -> Parsed<Option<AnimationView>> {
    |p: int, k: int| sp_animation(d, p)
}

/// The offsets of a part: three `f32`s where the part has a parent
/// (`parent > -1`), zero otherwise.
pub open spec fn sp_part_offsets(d: Seq<u8>, p: int, parent: i32) -> Parsed<((u32, u32), u32)> {
    if parent > -1 {
        match sp_u32(d, p) {
            Err(e) => Err(e),
            Ok((ox, p)) => match sp_u32(d, p) {
                Err(e) => Err(e),
                Ok((oy, p)) => match sp_u32(d, p) {
                    Err(e) => Err(e),
                    Ok((rot, p)) => Ok((((ox, oy), rot), p)),
                },
            },
        }
    } else {
        Ok((((0, 0), 0), p))
    }
}

/// A part: index, location, rotation, scale, flip, parent, then the offsets.
#[verifier::opaque]
pub open spec fn sp_part(d: Seq<u8>, p: int) -> Parsed<Part> {
    match sp_i32(d, p) {
        Err(e) => Err(e),
        Ok((idx, p)) => match sp_u32(d, p) {
            Err(e) => Err(e),
            Ok((loc_x, p)) => match sp_u32(d, p) {
                Err(e) => Err(e),
                Ok((loc_y, p)) => match sp_u32(d, p) {
                    Err(e) => Err(e),
                    Ok((rotation, p)) => match sp_u32(d, p) {
                        Err(e) => Err(e),
                        Ok((scale_x, p)) => match sp_u32(d, p) {
                            Err(e) => Err(e),
                            Ok((scale_y, p)) => match sp_i32(d, p) {
                                Err(e) => Err(e),
                                Ok((flip, p)) => match sp_i32(d, p) {
                                    Err(e) => Err(e),
                                    Ok((parent, p)) => match sp_part_offsets(d, p, parent) {
                                        Err(e) => Err(e),
                                        Ok(((parent_loc_offset, parent_rotation_offset), p)) => Ok(
                                            (
                                                Part {
                                                    idx,
                                                    location: (loc_x, loc_y),
                                                    rotation,
                                                    scaling: (scale_x, scale_y),
                                                    flip,
                                                    parent,
                                                    parent_loc_offset,
                                                    parent_rotation_offset,
                                                },
                                                p,
                                            ),
                                        ),
                                    },
                                },
                            },
                        },
                    },
                },
            },
        },
    }
}

pub open spec fn part_step(d: Seq<u8>) -> spec_fn(int, int) -> Parsed<Option<Part>> {
    |p: int, k: int|
        match sp_part(d, p) {
            Ok((x, q)) => Ok((Some(x), q)),
            Err(e) => Err(e),
        }
}

/// The frame entry with index `k`: a presence byte, and where it is
/// non-zero, a part count in `0..=32` and the parts.
#[verifier::opaque]
pub open spec fn sp_frame(d: Seq<u8>, p: int, k: int) -> Parsed<Option<Seq<Part>>> {
    match sp_bool(d, p) {
        Err(e) => Err(e),
        Ok((exists, p)) => if !exists {
            Ok((None, p))
        } else {
            match sp_i32(d, p) {
                Err(e) => Err(e),
                Ok((count, p)) => if count < 0 || count > 32 {
                    Err(
                        (
                            SaveError::InvalidData(
                                DataError::PartsCount { count, frame_index: k as i32 },
                            ),
                            p,
                        ),
                    )
                } else {
                    match rep(part_step(d), p, count as nat) {
                        Err(e) => Err(e),
                        Ok((parts, p)) => Ok((Some(parts), p)),
                    }
                },
            }
        },
    }
}

pub open spec fn frame_step(d: Seq<u8>) -> spec_fn(int, int) -> Parsed<Option<Seq<Part>>> {
    |p: int, k: int| sp_frame(d, p, k)
}

/// The name of the idle animation.
pub open spec fn idle_name() -> Seq<char> {
    seq!['i', 'd', 'l', 'e']
}

/// The index of the first animation at or after `i` whose name is `name`.
pub open spec fn first_named_from(anims: Seq<AnimationView>, name: Seq<char>, i: int) -> Option<int>
    decreases anims.len() - i,
{
    if i < 0 || i >= anims.len() {
        None
    } else if anims[i].name == name {
        Some(i)
    } else {
        first_named_from(anims, name, i + 1)
    }
}

/// The animation used for the idle pose: the first one named "idle", else
/// the first one, else none.
pub open spec fn idle_animation(anims: Seq<AnimationView>) -> Option<int> {
    match first_named_from(anims, idle_name(), 0) {
        Some(i) => Some(i),
        None => if anims.len() > 0 {
            Some(0)
        } else {
            None
        },
    }
}

/// The frame reference of the first keyframe of the idle animation; none
/// where there is no idle animation or it has no keyframe.
pub open spec fn idle_frame_ref(c: CharDefView) -> Option<i32> {
    match idle_animation(c.animations) {
        None => None,
        Some(a) => if c.animations[a].key_frames.len() == 0 {
            None
        } else {
            Some(c.animations[a].key_frames[0].frame_ref)
        },
    }
}

/// The index of the idle frame: the frame referenced by the first keyframe
/// of the idle animation, or the first frame where that reference is out of
/// range; none where there is no idle animation, it has no keyframe, or
/// there is no frame to fall back on.
pub open spec fn idle_frame_index(c: CharDefView) -> Option<int> {
    match idle_frame_ref(c) {
        None => None,
        Some(fr) => if 0 <= fr < c.frames.len() {
            Some(fr as int)
        } else if c.frames.len() > 0 {
            Some(0)
        } else {
            None
        },
    }
}

/// The idle frame reference where it lies outside the frames, so that the
/// idle frame falls back on the first frame (or on none).
pub open spec fn idle_ref_out_of_range(c: CharDefView) -> Option<i32> {
    match idle_frame_ref(c) {
        Some(fr) => if 0 <= fr < c.frames.len() {
            None
        } else {
            Some(fr)
        },
        None => None,
    }
}

/// A character definition file: path, texture name, a skipped `i32`, an
/// animation count in `0..=2000` and the animations, then a frame count in
/// `0..=20000` and the frames; the position is where the last frame ends.
pub open spec fn sp_char_def_file(d: Seq<u8>) -> Parsed<(Seq<char>, Seq<AnimationView>, Seq<Seq<Part>>)> {
    match sp_string(d, 0) {
        Err(e) => Err(e),
        Ok((_path, p)) => match sp_string(d, p) {
            Err(e) => Err(e),
            Ok((tex_name, p)) => match sp_i32(d, p) {
                Err(e) => Err(e),
                Ok((_spec_tex, p)) => match sp_i32(d, p) {
                    Err(e) => Err(e),
                    Ok((anim_count, p)) => if anim_count < 0 || anim_count > 2000 {
                        Err((SaveError::InvalidData(DataError::AnimationCount(anim_count)), p))
                    } else {
                        match rep(animation_step(d), p, anim_count as nat) {
                            Err(e) => Err(e),
                            Ok((animations, p)) => match sp_i32(d, p) {
                                Err(e) => Err(e),
                                Ok((frame_count, p)) => if frame_count < 0 || frame_count > 20000 {
                                    Err((SaveError::InvalidData(DataError::FrameCount(frame_count)), p))
                                } else {
                                    match rep(frame_step(d), p, frame_count as nat) {
                                        Err(e) => Err(e),
                                        Ok((frames, p)) => Ok(((tex_name, animations, frames), p)),
                                    }
                                },
                            },
                        }
                    },
                },
            },
        },
    }
}

/// The character definition named `name` that the bytes `d` hold. Bytes
/// after the last frame are not read.
pub open spec fn sp_char_def(d: Seq<u8>, name: Seq<char>) -> Result<CharDefView, SaveError> {
    match sp_char_def_file(d) {
        Err((e, _)) => Err(e),
        Ok(((tex_name, animations, frames), _)) => Ok(
            CharDefView { name, tex_name, animations, frames },
        ),
    }
}

fn skip_scripts(r: &mut ByteReader, count: u8) -> (res: Result<(), SaveError>)
    ensures
        final(r).bytes() == old(r).bytes(),
        outcome(discard(rep(script_step(old(r).bytes()), old(r).at(), count as nat)), res, final(r).at()),
{
    let ghost d = r.bytes();
    let ghost p0 = r.at();
    let ghost f = script_step(d);
    let mut i: u8 = 0;
    while i < count
        invariant
            i <= count,
            d == old(r).bytes(),
            p0 == old(r).at(),
            r.bytes() == d,
            f == script_step(d),
            discard(rep(f, p0, i as nat)) == Ok::<((), int), (SaveError, int)>(((), r.at())),
        decreases count - i,
    {
        match r.read_string() {
            Ok(_) => {},
            Err(e) => {
                proof {
                    lemma_rep_err(f, p0, (i + 1) as nat, count as nat);
                }
                return Err(e);
            },
        }
        i = i + 1;
    }
    Ok(())
}

impl KeyFrame {
    fn read(r: &mut ByteReader) -> (res: Result<Self, SaveError>)
        ensures
            final(r).bytes() == old(r).bytes(),
            outcome(sp_keyframe(old(r).bytes(), old(r).at()), res, final(r).at()),
    {
        reveal(sp_keyframe);
        let frame_ref = r.read_i32()?;
        let _duration = r.read_i32()?;
        let _lerp = r.read_u8()?;
        let script_count = r.read_u8()?;
        skip_scripts(r, script_count)?;
        Ok(KeyFrame { frame_ref })
    }
}

fn read_keyframes(r: &mut ByteReader, count: i32) -> (res: Result<Vec<KeyFrame>, SaveError>)
    requires
        0 <= count,
    ensures
        final(r).bytes() == old(r).bytes(),
        outcome(rep(keyframe_step(old(r).bytes()), old(r).at(), count as nat), view_result(res), final(r).at()),
{
    let ghost d = r.bytes();
    let ghost p0 = r.at();
    let ghost f = keyframe_step(d);
    let mut v: Vec<KeyFrame> = Vec::new();
    let mut i: i32 = 0;
    while i < count
        invariant
            0 <= i <= count,
            d == old(r).bytes(),
            p0 == old(r).at(),
            r.bytes() == d,
            f == keyframe_step(d),
            rep(f, p0, i as nat) == Ok::<(Seq<KeyFrame>, int), (SaveError, int)>((v@, r.at())),
        decreases count - i,
    {
        let x = match KeyFrame::read(r) {
            Ok(x) => x,
            Err(e) => {
                proof {
                    lemma_rep_err(f, p0, (i + 1) as nat, count as nat);
                }
                return Err(e);
            },
        };
        v.push(x);
        i = i + 1;
    }
    Ok(v)
}

impl Animation {
    fn read(r: &mut ByteReader) -> (res: Result<Option<Self>, SaveError>)
        ensures
            final(r).bytes() == old(r).bytes(),
            outcome(sp_animation(old(r).bytes(), old(r).at()), view_opt_result(res), final(r).at()),
    {
        reveal(sp_animation);
        let name = r.read_string()?;
        if name.as_str().is_empty() {
            return Ok(None);
        }
        let count = r.read_i32()?;
        if count < 0 || count > 10000 {
            return Err(SaveError::InvalidData(DataError::KeyFrameCount(count)));
        }
        let key_frames = read_keyframes(r, count)?;
        Ok(Some(Animation { name, key_frames }))
    }
}

fn read_animations(r: &mut ByteReader, count: i32) -> (res: Result<Vec<Animation>, SaveError>)
    requires
        0 <= count,
    ensures
        final(r).bytes() == old(r).bytes(),
        outcome(
            rep(animation_step(old(r).bytes()), old(r).at(), count as nat),
            match res {
                Ok(v) => Ok(v@.map_values(|a: Animation| a@)),
                Err(e) => Err(e),
            },
            final(r).at(),
        ),
{
    let ghost d = r.bytes();
    let ghost p0 = r.at();
    let ghost f = animation_step(d);
    let mut v: Vec<Animation> = Vec::new();
    let mut i: i32 = 0;
    assert(v@.map_values(|a: Animation| a@) =~= Seq::empty());
    while i < count
        invariant
            0 <= i <= count,
            d == old(r).bytes(),
            p0 == old(r).at(),
            r.bytes() == d,
            f == animation_step(d),
            rep(f, p0, i as nat) == Ok::<(Seq<AnimationView>, int), (SaveError, int)>(
                (v@.map_values(|a: Animation| a@), r.at()),
            ),
        decreases count - i,
    {
        match Animation::read(r) {
            Ok(Some(x)) => {
                let ghost before = v@;
                v.push(x);
                assert(v@.map_values(|a: Animation| a@) =~= before.map_values(|a: Animation| a@).push(x@));
            },
            Ok(None) => {},
            Err(e) => {
                proof {
                    lemma_rep_err(f, p0, (i + 1) as nat, count as nat);
                }
                return Err(e);
            },
        }
        i = i + 1;
    }
    Ok(v)
}

impl Part {
    fn read(r: &mut ByteReader) -> (res: Result<Self, SaveError>)
        ensures
            final(r).bytes() == old(r).bytes(),
            outcome(sp_part(old(r).bytes(), old(r).at()), res, final(r).at()),
    {
        reveal(sp_part);
        let idx = r.read_i32()?;
        let loc_x = r.read_u32()?;
        let loc_y = r.read_u32()?;
        let rotation = r.read_u32()?;
        let scale_x = r.read_u32()?;
        let scale_y = r.read_u32()?;
        let flip = r.read_i32()?;
        let parent = r.read_i32()?;
        let (parent_loc_offset, parent_rotation_offset) = if parent > -1 {
            let ox = r.read_u32()?;
            let oy = r.read_u32()?;
            let rot = r.read_u32()?;
            ((ox, oy), rot)
        } else {
            ((0u32, 0u32), 0u32)
        };
        Ok(Part {
            idx,
            location: (loc_x, loc_y),
            rotation,
            scaling: (scale_x, scale_y),
            flip,
            parent,
            parent_loc_offset,
            parent_rotation_offset,
        })
    }
}

fn read_parts(r: &mut ByteReader, count: i32) -> (res: Result<Vec<Part>, SaveError>)
    requires
        0 <= count,
    ensures
        final(r).bytes() == old(r).bytes(),
        outcome(rep(part_step(old(r).bytes()), old(r).at(), count as nat), match res {
            Ok(v) => Ok(v@),
            Err(e) => Err(e),
        }, final(r).at()),
{
    let ghost d = r.bytes();
    let ghost p0 = r.at();
    let ghost f = part_step(d);
    let mut v: Vec<Part> = Vec::new();
    let mut i: i32 = 0;
    while i < count
        invariant
            0 <= i <= count,
            d == old(r).bytes(),
            p0 == old(r).at(),
            r.bytes() == d,
            f == part_step(d),
            rep(f, p0, i as nat) == Ok::<(Seq<Part>, int), (SaveError, int)>((v@, r.at())),
        decreases count - i,
    {
        let x = match Part::read(r) {
            Ok(x) => x,
            Err(e) => {
                proof {
                    lemma_rep_err(f, p0, (i + 1) as nat, count as nat);
                }
                return Err(e);
            },
        };
        v.push(x);
        i = i + 1;
    }
    Ok(v)
}

impl Frame {
    fn read(r: &mut ByteReader, k: i32) -> (res: Result<Option<Self>, SaveError>)
        ensures
            final(r).bytes() == old(r).bytes(),
            outcome(sp_frame(old(r).bytes(), old(r).at(), k as int), view_opt_result(res), final(r).at()),
    {
        reveal(sp_frame);
        let exists = r.read_bool()?;
        if !exists {
            return Ok(None);
        }
        let count = r.read_i32()?;
        if count < 0 || count > 32 {
            return Err(SaveError::InvalidData(DataError::PartsCount { count, frame_index: k }));
        }
        let parts = read_parts(r, count)?;
        Ok(Some(Frame { parts }))
    }
}

fn read_frames(r: &mut ByteReader, count: i32) -> (res: Result<Vec<Frame>, SaveError>)
    requires
        0 <= count,
    ensures
        final(r).bytes() == old(r).bytes(),
        outcome(
            rep(frame_step(old(r).bytes()), old(r).at(), count as nat),
            match res {
                Ok(v) => Ok(v@.map_values(|f: Frame| f@)),
                Err(e) => Err(e),
            },
            final(r).at(),
        ),
{
    let ghost d = r.bytes();
    let ghost p0 = r.at();
    let ghost f = frame_step(d);
    let mut v: Vec<Frame> = Vec::new();
    let mut i: i32 = 0;
    assert(v@.map_values(|f: Frame| f@) =~= Seq::empty());
    while i < count
        invariant
            0 <= i <= count,
            d == old(r).bytes(),
            p0 == old(r).at(),
            r.bytes() == d,
            f == frame_step(d),
            rep(f, p0, i as nat) == Ok::<(Seq<Seq<Part>>, int), (SaveError, int)>(
                (v@.map_values(|f: Frame| f@), r.at()),
            ),
        decreases count - i,
    {
        match Frame::read(r, i) {
            Ok(Some(x)) => {
                let ghost before = v@;
                v.push(x);
                assert(v@.map_values(|f: Frame| f@) =~= before.map_values(|f: Frame| f@).push(x@));
            },
            Ok(None) => {},
            Err(e) => {
                proof {
                    lemma_rep_err(f, p0, (i + 1) as nat, count as nat);
                }
                return Err(e);
            },
        }
        i = i + 1;
    }
    Ok(v)
}

impl CharDef {
    /// Parses the bytes of a `.zsx` character definition; `name` becomes the
    /// definition's name. Bytes after the last frame are not read.
    pub fn load_from_bytes(data: &[u8], name: String) -> (res: Result<Self, SaveError>)
        ensures
            view_result(res) == sp_char_def(data@, name@),
    {
        let mut r = ByteReader::new(data);
        let _path = r.read_string()?;
        let tex_name = r.read_string()?;
        let _spec_tex = r.read_i32()?;
        let anim_count = r.read_i32()?;
        if anim_count < 0 || anim_count > 2000 {
            return Err(SaveError::InvalidData(DataError::AnimationCount(anim_count)));
        }
        let animations = read_animations(&mut r, anim_count)?;
        let frame_count = r.read_i32()?;
        if frame_count < 0 || frame_count > 20000 {
            return Err(SaveError::InvalidData(DataError::FrameCount(frame_count)));
        }
        let frames = read_frames(&mut r, frame_count)?;
        Ok(CharDef { name, tex_name, animations, frames })
    }

    /// The frame reference of the first keyframe of the animation named
    /// "idle", or else of the first animation.
    fn idle_key_frame_ref(&self) -> (res: Option<i32>)
        ensures
            res == idle_frame_ref(self@),
    {
        let ghost anims = self@.animations;
        let idle = "idle".to_owned();
        proof {
            reveal_strlit("idle");
        }
        let n = self.animations.len();
        let mut found: Option<usize> = None;
        let mut i: usize = 0;
        while i < n
            invariant_except_break
                i <= n,
                found is None,
                first_named_from(anims, idle_name(), 0) == first_named_from(anims, idle_name(), i as int),
            invariant
                n == self.animations@.len(),
                anims == self@.animations,
                idle@ == idle_name(),
            ensures
                found matches Some(j) ==> j < n && first_named_from(anims, idle_name(), 0) == Some(j as int),
                found is None ==> first_named_from(anims, idle_name(), 0) is None,
            decreases n - i,
        {
            if self.animations[i].name == idle {
                found = Some(i);
                break;
            }
            i = i + 1;
        }
        let a = match found {
            Some(j) => j,
            None => if n > 0 {
                0
            } else {
                return None;
            },
        };
        let anim = &self.animations[a];
        assert(anim@ == anims[a as int]);
        if anim.key_frames.len() == 0 {
            return None;
        }
        Some(anim.key_frames[0].frame_ref)
    }

    /// The frame of the idle pose: the frame that the first keyframe of the
    /// animation named "idle" (or else of the first animation) refers to,
    /// falling back on the first frame where the reference is out of range.
    pub fn idle_frame(&self) -> (res: Option<&Frame>)
        ensures
            res is Some <==> idle_frame_index(self@) is Some,
            res matches Some(f) ==> *f == self.frames@[idle_frame_index(self@).unwrap()],
    {
        let frame_ref = match self.idle_key_frame_ref() {
            Some(fr) => fr,
            None => return None,
        };
        if frame_ref >= 0 && (frame_ref as usize) < self.frames.len() {
            Some(&self.frames[frame_ref as usize])
        } else if self.frames.len() > 0 {
            Some(&self.frames[0])
        } else {
            None
        }
    }

    /// The idle keyframe's frame reference where it is out of range, which is
    /// when [`CharDef::idle_frame`] falls back on the first frame; none where
    /// the reference is in range or there is no idle keyframe.
    pub fn idle_frame_fallback(&self) -> (res: Option<i32>)
        ensures
            res == idle_ref_out_of_range(self@),
    {
        match self.idle_key_frame_ref() {
            Some(fr) => if fr >= 0 && (fr as usize) < self.frames.len() {
                None
            } else {
                Some(fr)
            },
            None => None,
        }
    }
}

/// The limits that every character definition read from bytes respects.
pub open spec fn char_def_within_limits(c: CharDefView) -> bool {
    &&& c.animations.len() <= 2000
    &&& forall|i: int| 0 <= i < c.animations.len() ==> #[trigger] c.animations[i].key_frames.len() <= 10000
        && c.animations[i].name.len() > 0
    &&& c.frames.len() <= 20000
    &&& forall|i: int| 0 <= i < c.frames.len() ==> #[trigger] c.frames[i].len() <= 32
}

/// Whatever the bytes, a character definition read from them has at most
/// 2000 animations, each named and with at most 10000 keyframes, and at
/// most 20000 frames, each with at most 32 parts.
pub proof fn lemma_char_def_limits(d: Seq<u8>, name: Seq<char>)
    ensures
        sp_char_def(d, name) matches Ok(c) ==> char_def_within_limits(c),
{
    let anim_ok = |a: AnimationView| a.key_frames.len() <= 10000 && a.name.len() > 0;
    let frame_ok = |f: Seq<Part>| f.len() <= 32;
    assert forall|q: int, k: int| #[trigger] animation_step(d)(q, k) matches Ok((Some(a), _)) ==> anim_ok(a) by {
        reveal(sp_animation);
        if let Ok((_, p1)) = sp_string(d, q) {
            if let Ok((count, p2)) = sp_i32(d, p1) {
                lemma_rep_len(keyframe_step(d), p2, count as nat);
            }
        }
    }
    assert forall|q: int, k: int| #[trigger] frame_step(d)(q, k) matches Ok((Some(f), _)) ==> frame_ok(f) by {
        reveal(sp_frame);
        if let Ok((_, p1)) = sp_bool(d, q) {
            if let Ok((count, p2)) = sp_i32(d, p1) {
                lemma_rep_len(part_step(d), p2, count as nat);
            }
        }
    }
    if let Ok((_, p)) = sp_string(d, 0) {
        if let Ok((_, p)) = sp_string(d, p) {
            if let Ok((_, p)) = sp_i32(d, p) {
                if let Ok((anim_count, p)) = sp_i32(d, p) {
                    lemma_rep_len(animation_step(d), p, anim_count as nat);
                    lemma_rep_all(animation_step(d), p, anim_count as nat, anim_ok);
                    if let Ok((_, p)) = rep(animation_step(d), p, anim_count as nat) {
                        if let Ok((frame_count, p)) = sp_i32(d, p) {
                            lemma_rep_len(frame_step(d), p, frame_count as nat);
                            lemma_rep_all(frame_step(d), p, frame_count as nat, frame_ok);
                        }
                    }
                }
            }
        }
    }
}

proof fn lemma_reads_below_records(d: Seq<u8>, d2: Seq<u8>)
    ensures
        forall|p: int| reads_below(#[trigger] sp_keyframe(d, p), sp_keyframe(d2, p), p, d, d2),
        forall|p: int| reads_below(#[trigger] sp_animation(d, p), sp_animation(d2, p), p, d, d2),
        forall|p: int| reads_below(#[trigger] sp_part(d, p), sp_part(d2, p), p, d, d2),
        forall|p: int, k: int| reads_below(#[trigger] sp_frame(d, p, k), sp_frame(d2, p, k), p, d, d2),
{
    broadcast use lemma_agree_below;

    lemma_reads_below_u8(d, d2);
    lemma_reads_below_u32(d, d2);
    lemma_reads_below_string(d, d2);
    assert forall|q: int, k: int| reads_below(#[trigger] script_step(d)(q, k), script_step(d2)(q, k), q, d, d2) by {
        assert(reads_below(sp_string(d, q), sp_string(d2, q), q, d, d2));
    }
    assert forall|p: int| reads_below(#[trigger] sp_keyframe(d, p), sp_keyframe(d2, p), p, d, d2) by {
        reveal(sp_keyframe);
        if sp_keyframe(d, p) is Ok {
            let p1 = sp_i32(d, p)->Ok_0.1;
            let p2 = sp_i32(d, p1)->Ok_0.1;
            let p3 = sp_u8(d, p2)->Ok_0.1;
            let (count, p4) = sp_u8(d, p3)->Ok_0;
            lemma_reads_below_rep(script_step(d), script_step(d2), p4, count as nat, d, d2);
        }
    }
    assert forall|q: int, k: int| reads_below(#[trigger] keyframe_step(d)(q, k), keyframe_step(d2)(q, k), q, d, d2) by {
        assert(reads_below(sp_keyframe(d, q), sp_keyframe(d2, q), q, d, d2));
    }
    assert forall|p: int| reads_below(#[trigger] sp_animation(d, p), sp_animation(d2, p), p, d, d2) by {
        reveal(sp_animation);
        if sp_animation(d, p) is Ok {
            let (name, p1) = sp_string(d, p)->Ok_0;
            if name.len() != 0 {
                let (count, p2) = sp_i32(d, p1)->Ok_0;
                lemma_reads_below_rep(keyframe_step(d), keyframe_step(d2), p2, count as nat, d, d2);
            }
        }
    }
    assert forall|p: int| reads_below(#[trigger] sp_part(d, p), sp_part(d2, p), p, d, d2) by {
        reveal(sp_part);
        if sp_part(d, p) is Ok {
            let p1 = sp_i32(d, p)->Ok_0.1;
            let p2 = sp_u32(d, p1)->Ok_0.1;
            let p3 = sp_u32(d, p2)->Ok_0.1;
            let p4 = sp_u32(d, p3)->Ok_0.1;
            let p5 = sp_u32(d, p4)->Ok_0.1;
            let p6 = sp_u32(d, p5)->Ok_0.1;
            let p7 = sp_i32(d, p6)->Ok_0.1;
            let (parent, p8) = sp_i32(d, p7)->Ok_0;
            if parent > -1 {
                let p9 = sp_u32(d, p8)->Ok_0.1;
                let p10 = sp_u32(d, p9)->Ok_0.1;
                assert(reads_below(sp_u32(d, p10), sp_u32(d2, p10), p10, d, d2));
            }
        }
    }
    assert forall|q: int, k: int| reads_below(#[trigger] part_step(d)(q, k), part_step(d2)(q, k), q, d, d2) by {
        assert(reads_below(sp_part(d, q), sp_part(d2, q), q, d, d2));
    }
    assert forall|p: int, k: int| reads_below(#[trigger] sp_frame(d, p, k), sp_frame(d2, p, k), p, d, d2) by {
        reveal(sp_frame);
        if sp_frame(d, p, k) is Ok {
            let (exists, p1) = sp_bool(d, p)->Ok_0;
            if exists {
                let (count, p2) = sp_i32(d, p1)->Ok_0;
                lemma_reads_below_rep(part_step(d), part_step(d2), p2, count as nat, d, d2);
            }
        }
    }
}

/// A character definition file is read only up to the end of its last
/// frame: bytes after it change nothing, and the file cut anywhere before
/// that end is refused.
pub proof fn lemma_char_def_reads_below(d: Seq<u8>, d2: Seq<u8>)
    ensures
        reads_below(sp_char_def_file(d), sp_char_def_file(d2), 0, d, d2),
{
    broadcast use lemma_agree_below;

    lemma_reads_below_u32(d, d2);
    lemma_reads_below_string(d, d2);
    lemma_reads_below_records(d, d2);
    assert forall|q: int, k: int| reads_below(#[trigger] animation_step(d)(q, k), animation_step(d2)(q, k), q, d, d2) by {
        assert(reads_below(sp_animation(d, q), sp_animation(d2, q), q, d, d2));
    }
    assert forall|q: int, k: int| reads_below(#[trigger] frame_step(d)(q, k), frame_step(d2)(q, k), q, d, d2) by {
        assert(reads_below(sp_frame(d, q, k), sp_frame(d2, q, k), q, d, d2));
    }
    if sp_char_def_file(d) is Ok {
        let p1 = sp_string(d, 0)->Ok_0.1;
        let p2 = sp_string(d, p1)->Ok_0.1;
        let p3 = sp_i32(d, p2)->Ok_0.1;
        let (anim_count, p4) = sp_i32(d, p3)->Ok_0;
        lemma_reads_below_rep(animation_step(d), animation_step(d2), p4, anim_count as nat, d, d2);
        let p5 = rep(animation_step(d), p4, anim_count as nat)->Ok_0.1;
        let (frame_count, p6) = sp_i32(d, p5)->Ok_0;
        lemma_reads_below_rep(frame_step(d), frame_step(d2), p6, frame_count as nat, d, d2);
    }
}

/// Bytes after the last frame of a character definition never change what
/// is read, and the file cut anywhere before the end of its last frame is
/// refused.
pub proof fn lemma_char_def_trailing_and_cut(d: Seq<u8>, extra: Seq<u8>, k: int, name: Seq<char>)
    requires
        0 <= k <= d.len(),
    ensures
        sp_char_def(d, name) is Ok ==> sp_char_def(d + extra, name) == sp_char_def(d, name),
        sp_char_def_file(d) matches Ok((_, m)) && k < m ==> sp_char_def(d.take(k), name) is Err,
{
    lemma_char_def_reads_below(d, d + extra);
    lemma_char_def_reads_below(d, d.take(k));
    crate::reader::lemma_reads_below_extend_take(sp_char_def_file(d), sp_char_def_file(d + extra), sp_char_def_file(d.take(k)), 0, d, extra, k);
}

} // verus!
