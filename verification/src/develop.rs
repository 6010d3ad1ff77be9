//! Non-destructive develop: which way up a photograph is, and where its
//! developed pixels are addressed.
//!
//! An edit is a list of operations stored against a photo; nothing on disk
//! changes when a slider moves. Every derived image is addressed by a
//! **render key**: the content hash for an untouched photo, or a hash of the
//! content, the stored edit stack and the encoder quality for an adjusted one.
//! A photo with no edits therefore keeps its thumbnails, changing an edit
//! changes the key, and undoing an edit comes back to the key it had.
//!
//! Turns and mirrors do not commute, so they are never edited where they lie
//! in a stack: they fold into one [`Framing`] — a left-to-right mirror, then
//! quarter turns clockwise — which every geometry button composes onto from
//! the outside.

use vstd::prelude::*;
use vstd::utf8::encode_utf8;

use crate::encoding::{hex_of, hex_text, is_lower_hex, lemma_hex_text};
use crate::media::{shard_ok, thumb_location, thumb_path};
use crate::text::{chars_of, decimal, extend, string_of, u64_text};

verus! {

/// Current stack format. Bumped only if the meaning of stored ops changes.
pub const STACK_VERSION: u32 = 1;

/// JPEG quality for a developed frame — the file a client is actually sent.
///
/// An untouched photo is published by copying the camera's own file, so it
/// arrives at whatever quality the body wrote, typically the low nineties. An
/// adjusted one is re-encoded, and it has to land in the same range or moving
/// one slider silently costs the delivered frame detail.
pub const DELIVERY_JPEG_QUALITY: u8 = 92;

// --------------------------------------------------------------- framing

/// Which way up the photograph is: a left-to-right mirror, then a number of
/// quarter turns clockwise.
///
/// Those eight states are every way a rectangle can be set down, so any run of
/// rotate and flip presses adds up to one of them. The only way a button can
/// be trusted is to compose it onto the *outside* of the framing already there
/// and write the whole thing back, which is what the methods here do.
#[derive(Debug, Clone, Copy, PartialEq, Eq, Structural)]
pub struct Framing {
    pub mirrored: bool,
    pub turns: i32,
}

/// The geometry an edit op carries, as far as framing reads it: a turn, one
/// of the two mirrors, or something that leaves the frame where it is.
#[derive(Debug, Clone, Copy, PartialEq, Eq, Structural)]
pub enum GeometryOp {
    /// Quarter turns clockwise.
    Rotate { quarter_turns: u8 },
    /// A left-to-right mirror.
    FlipHorizontal,
    /// A top-to-bottom mirror.
    FlipVertical,
    /// A tone op or a crop.
    Other,
}

/// The photograph as it was shot.
pub open spec fn upright() -> Framing {
    Framing { mirrored: false, turns: 0 }
}

/// A framing in canonical form: turns in `0..4`.
pub open spec fn canonical(f: Framing) -> bool {
    0 <= f.turns < 4
}

/// `rotate(q) ∘ f`: the framed picture turned `q` more quarters.
pub open spec fn turned(f: Framing, q: int) -> Framing {
    Framing { mirrored: f.mirrored, turns: ((f.turns + q) % 4) as i32 }
}

/// `flip ∘ f`: pushing a mirror inside reverses the turn it passes.
pub open spec fn mirrored_h(f: Framing) -> Framing {
    Framing { mirrored: !f.mirrored, turns: ((-f.turns) % 4) as i32 }
}

/// A vertical mirror: a horizontal one and a half turn.
pub open spec fn mirrored_v(f: Framing) -> Framing {
    turned(mirrored_h(f), 2)
}

/// One op applied to a framing.
pub open spec fn step(f: Framing, op: GeometryOp) -> Framing {
    match op {
        GeometryOp::Rotate { quarter_turns } => turned(f, quarter_turns as int),
        GeometryOp::FlipHorizontal => mirrored_h(f),
        GeometryOp::FlipVertical => mirrored_v(f),
        GeometryOp::Other => f,
    }
}

/// The framing a run of ops adds up to, from upright.
pub open spec fn framed(ops: Seq<GeometryOp>) -> Framing
    decreases ops.len(),
{
    if ops.len() == 0 {
        upright()
    } else {
        step(framed(ops.drop_last()), ops.last())
    }
}

/// `x.rem_euclid(4)`.
fn rem4(x: i32) -> (r: i32)
    ensures
        r as int == x as int % 4,
        0 <= r < 4,
{
    match x.checked_rem_euclid(4) {
        Some(r) => r,
        None => 0,
    }
}

impl Framing {
    /// The photograph as it was shot.
    pub fn upright() -> (r: Framing)
        ensures
            r == upright(),
    {
        Framing { mirrored: false, turns: 0 }
    }

    /// Turn the already-framed picture, i.e. `rotate ∘ self`.
    pub fn then_turn(self, quarter_turns: i32) -> (r: Framing)
        requires
            i32::MIN <= self.turns + quarter_turns <= i32::MAX,
        ensures
            r == turned(self, quarter_turns as int),
    {
        Framing { mirrored: self.mirrored, turns: rem4(self.turns + quarter_turns) }
    }

    /// Mirror the already-framed picture left to right.
    ///
    /// `flip ∘ rotate(θ)` is `rotate(-θ) ∘ flip`, so pushing a mirror to the
    /// inside reverses the turn it passes.
    pub fn then_mirror_h(self) -> (r: Framing)
        requires
            self.turns != i32::MIN,
        ensures
            r == mirrored_h(self),
    {
        Framing { mirrored: !self.mirrored, turns: rem4(-self.turns) }
    }

    /// Mirror it top to bottom. A vertical mirror is a horizontal one and a
    /// half turn, which is why only one mirror needs storing.
    pub fn then_mirror_v(self) -> (r: Framing)
        requires
            self.turns != i32::MIN,
        ensures
            r == mirrored_v(self),
    {
        let m = self.then_mirror_h();
        m.then_turn(2)
    }
}

/// Fold a run of ops into the one framing they add up to. Anything that is not
/// a turn or a mirror leaves the frame where it is.
pub fn framing_of(ops: &[GeometryOp]) -> (r: Framing)
    ensures
        r == framed(ops@),
        canonical(r),
{
    let mut f = Framing::upright();
    let mut i: usize = 0;
    assert(ops@.take(0) =~= Seq::<GeometryOp>::empty());
    while i < ops.len()
        invariant
            i <= ops@.len(),
            f == framed(ops@.take(i as int)),
            canonical(f),
        decreases ops@.len() - i,
    {
        let op = ops[i];
        f = match op {
            GeometryOp::Rotate { quarter_turns } => f.then_turn(quarter_turns as i32),
            GeometryOp::FlipHorizontal => f.then_mirror_h(),
            GeometryOp::FlipVertical => f.then_mirror_v(),
            GeometryOp::Other => f,
        };
        proof {
            let t = ops@.take(i + 1);
            assert(t.drop_last() =~= ops@.take(i as int));
            assert(t.last() == op);
        }
        i = i + 1;
    }
    assert(ops@.take(ops@.len() as int) =~= ops@);
    f
}

// ------------------------------------------------------------------ laws

/// Framings stay canonical under every op.
pub proof fn lemma_step_canonical(f: Framing, op: GeometryOp)
    requires
        canonical(f),
    ensures
        canonical(step(f, op)),
{
}

/// Two turns are one turn by their sum.
pub proof fn lemma_turns_add(f: Framing, a: int, b: int)
    requires
        canonical(f),
    ensures
        turned(turned(f, a), b) == turned(f, a + b),
{
    assert(((f.turns + a) % 4 + b) % 4 == (f.turns + a + b) % 4) by (nonlinear_arith);
}

/// A turn is undone by the opposite turn — the rotate buttons undo
/// themselves.
pub proof fn lemma_turn_undone(f: Framing, k: int)
    requires
        canonical(f),
    ensures
        turned(turned(f, k), -k) == f,
{
    lemma_turns_add(f, k, -k);
}

/// Four quarter turns are no turn at all.
pub proof fn lemma_four_turns(f: Framing)
    requires
        canonical(f),
    ensures
        turned(turned(turned(turned(f, 1), 1), 1), 1) == f,
{
    lemma_turns_add(f, 1, 1);
    lemma_turns_add(f, 2, 1);
    lemma_turns_add(f, 3, 1);
}

/// A second horizontal mirror undoes the first.
pub proof fn lemma_mirror_h_twice(f: Framing)
    requires
        canonical(f),
    ensures
        mirrored_h(mirrored_h(f)) == f,
{
}

/// A second vertical mirror undoes the first.
pub proof fn lemma_mirror_v_twice(f: Framing)
    requires
        canonical(f),
    ensures
        mirrored_v(mirrored_v(f)) == f,
{
}

/// Turning and then mirroring is mirroring and then turning the other way:
/// the two do not commute.
pub proof fn lemma_mirror_reverses_turn(f: Framing, k: int)
    requires
        canonical(f),
    ensures
        mirrored_h(turned(f, k)) == turned(mirrored_h(f), -k),
{
    assert((-((f.turns + k) % 4)) % 4 == ((-f.turns) % 4 - k) % 4) by (nonlinear_arith);
}

/// A vertical mirror folds to the same framing as a horizontal mirror and a
/// half turn.
pub proof fn lemma_vertical_is_horizontal_and_half_turn(ops: Seq<GeometryOp>)
    ensures
        framed(ops.push(GeometryOp::FlipVertical)) == framed(
            ops.push(GeometryOp::FlipHorizontal).push(GeometryOp::Rotate { quarter_turns: 2 }),
        ),
{
    let a = ops.push(GeometryOp::FlipVertical);
    let b = ops.push(GeometryOp::FlipHorizontal).push(GeometryOp::Rotate { quarter_turns: 2 });
    assert(a.drop_last() =~= ops);
    assert(b.drop_last() =~= ops.push(GeometryOp::FlipHorizontal));
    assert(b.drop_last().drop_last() =~= ops);
    assert(framed(b.drop_last()) == mirrored_h(framed(ops)));
}

/// The ops a framing is stored as: the mirror, if any, then the turn, if any.
/// An upright photograph stores nothing.
pub open spec fn stored_framing(f: Framing) -> Seq<GeometryOp> {
    let m = if f.mirrored {
        seq![GeometryOp::FlipHorizontal]
    } else {
        Seq::<GeometryOp>::empty()
    };
    let q = f.turns as int % 4;
    if q != 0 {
        m.push(GeometryOp::Rotate { quarter_turns: q as u8 })
    } else {
        m
    }
}

/// Write a framing back as the ops a stack keeps for it, replacing whatever
/// turns and mirrors it held: at most one mirror and one turn, so a run of
/// presses never piles up, and nothing at all once the photograph is upright
/// again.
pub fn framing_ops(f: Framing) -> (r: Vec<GeometryOp>)
    ensures
        r@ == stored_framing(f),
{
    let mut out: Vec<GeometryOp> = Vec::new();
    if f.mirrored {
        out.push(GeometryOp::FlipHorizontal);
    }
    let q = rem4(f.turns);
    if q != 0 {
        out.push(GeometryOp::Rotate { quarter_turns: q as u8 });
    }
    proof {
        if f.mirrored {
            assert(seq![GeometryOp::FlipHorizontal] =~= Seq::<GeometryOp>::empty().push(
                GeometryOp::FlipHorizontal,
            ));
        }
    }
    out
}

/// Reading back what a framing was stored as gives the framing again.
pub proof fn lemma_stored_framing_reads_back(f: Framing)
    requires
        canonical(f),
    ensures
        framed(stored_framing(f)) == f,
        stored_framing(f).len() == 0 <==> f == upright(),
{
    let s = stored_framing(f);
    let m = if f.mirrored {
        seq![GeometryOp::FlipHorizontal]
    } else {
        Seq::<GeometryOp>::empty()
    };
    assert(framed(Seq::<GeometryOp>::empty()) == upright());
    if f.mirrored {
        assert(m.drop_last() =~= Seq::<GeometryOp>::empty());
        assert(framed(m) == mirrored_h(upright()));
    }
    assert(framed(m) == Framing { mirrored: f.mirrored, turns: 0 });
    if f.turns != 0 {
        assert(s.drop_last() =~= m);
        assert(framed(s) == turned(framed(m), f.turns as int));
    } else {
        assert(s =~= m);
    }
}

// ------------------------------------------------------------ render key

/// The BLAKE3 hash of `input` — 32 bytes, a function of the input alone.
pub uninterp spec fn blake3_digest(input: Seq<u8>) -> Seq<u8>;

/// `blake3::hash`: the BLAKE3 digest of the bytes, taken out of the `Hash`
/// as its 32 raw bytes (`Hash::as_bytes`). What the digest is, is left to the
/// name [`blake3_digest`]; that it is 32 bytes long is `OUT_LEN`.
#[verifier::external_body]
pub(crate) fn blake3_hash(input: &[u8]) -> (r: Vec<u8>)
    ensures
        r@ == blake3_digest(input@),
        r@.len() == 32,
{
    blake3::hash(input).as_bytes().to_vec()
}

/// What is hashed for an edited photo: the content hash, the stored stack
/// text and the encoder quality, separated by U+0001.
pub open spec fn key_input(content_hash: Seq<char>, stack_json: Seq<char>, quality: u8) -> Seq<char> {
    content_hash + seq!['\u{1}'] + stack_json + seq!['\u{1}', 'q'] + decimal(quality as nat)
}

/// The render key: the content hash itself for an untouched photo (`None`),
/// else the BLAKE3 hex of [`key_input`].
pub open spec fn render_key_for(content_hash: Seq<char>, stack_json: Option<Seq<char>>, quality: u8) -> Seq<char> {
    match stack_json {
        None => content_hash,
        Some(j) => hex_text(blake3_digest(encode_utf8(key_input(content_hash, j, quality)))),
    }
}

/// The characters of an optional string slice.
pub open spec fn opt_str_view(o: Option<&str>) -> Option<Seq<char>> {
    match o {
        Some(s) => Some(s@),
        None => None,
    }
}

/// Address of the developed pixels for a photo, at the delivery quality.
///
/// `stack_json` is the stack's stored text, or `None` when the stack is
/// empty: then the key is the content hash, so untouched photos keep every
/// thumbnail that already exists.
pub fn render_key(content_hash: &str, stack_json: Option<&str>) -> (r: String)
    ensures
        r@ == render_key_for(content_hash@, opt_str_view(stack_json), DELIVERY_JPEG_QUALITY),
        stack_json is Some ==> r@.len() == 64 && forall|k: int|
            0 <= k < r@.len() ==> is_lower_hex(#[trigger] r@[k]),
{
    render_key_with_quality(content_hash, stack_json, DELIVERY_JPEG_QUALITY)
}

/// The key, for a stated encoder quality.
///
/// How the pixels are encoded is part of what they are: without the quality
/// in the hash, a library would go on serving bytes from an old encoder for
/// ever beside photos rendered with a new one.
pub fn render_key_with_quality(content_hash: &str, stack_json: Option<&str>, quality: u8) -> (r: String)
    ensures
        r@ == render_key_for(content_hash@, opt_str_view(stack_json), quality),
        stack_json is Some ==> r@.len() == 64 && forall|k: int|
            0 <= k < r@.len() ==> is_lower_hex(#[trigger] r@[k]),
{
    match stack_json {
        None => {
            let v = chars_of(content_hash);
            string_of(&v)
        },
        Some(json) => {
            let mut text = chars_of(content_hash);
            text.push('\u{1}');
            let j = chars_of(json);
            extend(&mut text, &j);
            text.push('\u{1}');
            text.push('q');
            let d = u64_text(quality as u64);
            extend(&mut text, &d);
            let s = string_of(&text);
            proof {
                assert(text@ =~= key_input(content_hash@, json@, quality));
            }
            let digest = blake3_hash(s.as_str().as_bytes());
            proof {
                lemma_hex_text(blake3_digest(encode_utf8(s@)));
            }
            hex_of(&digest)
        },
    }
}

/// Where a full-size developed render is cached: beside the thumbnails,
/// under the same content-addressed sharding, so clearing the derived-data
/// directory clears this too.
pub fn render_cache_path(thumb_root: &str, render_key: &str) -> (r: String)
    requires
        shard_ok(render_key@),
    ensures
        r@ == thumb_location(thumb_root@, render_key@, "full"@),
{
    thumb_path(thumb_root, render_key, "full")
}

} // verus!
