use gpp_core::develop::{
    framing_of, framing_ops, render_cache_path, render_key, render_key_with_quality, Framing, GeometryOp,
    DELIVERY_JPEG_QUALITY, STACK_VERSION,
};

const BRIGHT: &str = r#"{"version":1,"ops":[{"op":"exposure","ev":1.0}]}"#;
const BRIGHTER: &str = r#"{"version":1,"ops":[{"op":"exposure","ev":2.0}]}"#;

#[test]
fn an_untouched_photo_keeps_its_content_hash_as_key() {
    let base = "0123456789abcdef";
    assert_eq!(render_key(base, None), base);
    assert_eq!(render_key_with_quality(base, None, 50), base);
}

#[test]
fn render_key_changes_with_the_edit_and_comes_back_on_undo() {
    let base = "0123456789abcdef";
    let bright = render_key(base, Some(BRIGHT));
    assert_ne!(bright, base);
    assert_ne!(bright, render_key(base, Some(BRIGHTER)));
    assert_eq!(bright, render_key(base, Some(BRIGHT)), "undo returns to a cached key");
    assert_eq!(bright.len(), 64);
    assert!(bright.chars().all(|c| c.is_ascii_digit() || ('a'..='f').contains(&c)));
}

#[test]
fn the_render_key_follows_the_delivery_quality() {
    let key = render_key("abc123", Some(BRIGHT));
    assert_ne!(key, "abc123");
    assert_eq!(key, render_key_with_quality("abc123", Some(BRIGHT), DELIVERY_JPEG_QUALITY));
    assert_ne!(key, render_key_with_quality("abc123", Some(BRIGHT), DELIVERY_JPEG_QUALITY + 1));
}

#[test]
fn the_key_hashes_hash_stack_and_quality_together() {
    let expected = blake3::hash("abc\u{1}{}\u{1}q92".as_bytes()).to_hex().to_string();
    assert_eq!(render_key("abc", Some("{}")), expected);
}

#[test]
fn renders_are_cached_beside_the_thumbnails() {
    assert_eq!(render_cache_path("/t", "abcdef"), "/t/ab/abcdef_full.jpg");
    assert_eq!(STACK_VERSION, 1);
}

fn rot(q: u8) -> GeometryOp {
    GeometryOp::Rotate { quarter_turns: q }
}

#[test]
fn rotating_twice_is_a_half_turn() {
    assert_eq!(framing_of(&[rot(1), rot(1)]), Framing { mirrored: false, turns: 2 });
    let f = Framing::upright().then_turn(1).then_turn(1);
    assert_eq!(framing_ops(f), vec![rot(2)], "one rotation, not a pile of them");
}

#[test]
fn rotating_the_whole_way_round_leaves_no_trace() {
    assert_eq!(framing_of(&[rot(1), rot(1), rot(1), rot(1)]), Framing::upright());
    let f = Framing::upright().then_turn(1).then_turn(1).then_turn(1).then_turn(1);
    assert_eq!(f, Framing::upright());
    assert!(framing_ops(f).is_empty(), "back where it started, so nothing is stored");
    assert_eq!(render_key("abc123", None), "abc123", "and the thumbnails still fit");
}

#[test]
fn rotating_left_from_upright_wraps_to_three_quarters() {
    let f = Framing::upright().then_turn(-1);
    assert_eq!(f.turns, 3);
    assert_eq!(framing_ops(f), vec![rot(3)]);
    assert_eq!(f.then_turn(1), Framing::upright());
    assert!(framing_ops(f.then_turn(1)).is_empty());
}

#[test]
fn a_stored_framing_reads_back_as_itself() {
    for mirrored in [false, true] {
        for turns in 0..4 {
            let f = Framing { mirrored, turns };
            assert_eq!(framing_of(&framing_ops(f)), f);
        }
    }
    let mirrored_turned = Framing { mirrored: true, turns: 1 };
    assert_eq!(framing_ops(mirrored_turned), vec![GeometryOp::FlipHorizontal, rot(1)]);
}

#[test]
fn a_mirror_is_undone_by_a_second_one() {
    assert_eq!(framing_of(&[GeometryOp::FlipHorizontal, GeometryOp::FlipHorizontal]), Framing::upright());
    assert_eq!(framing_of(&[GeometryOp::FlipVertical, GeometryOp::FlipVertical]), Framing::upright());
}

#[test]
fn both_mirrors_together_are_a_half_turn() {
    assert_eq!(
        framing_of(&[GeometryOp::FlipHorizontal, GeometryOp::FlipVertical]),
        framing_of(&[rot(2)])
    );
}

#[test]
fn a_mirror_reverses_the_turn_it_passes() {
    let turned_then_mirrored = framing_of(&[rot(1), GeometryOp::FlipHorizontal]);
    assert_eq!(turned_then_mirrored, Framing { mirrored: true, turns: 3 });
    assert_eq!(framing_of(&[GeometryOp::Other, rot(5)]), Framing { mirrored: false, turns: 1 });
}

#[test]
fn a_developed_key_is_sixty_four_hex_digits() {
    let k = render_key("abc", Some("[]"));
    assert_eq!(k.len(), 64);
    assert!(k.chars().all(|c| c.is_ascii_digit() || ('a'..='f').contains(&c)));
}
