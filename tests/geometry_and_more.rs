use rl2025::animation::{pack_id, AnimLock};
use rl2025::fov::{orient2di, Contains, ShadowInterval, Shadows};
use rl2025::geometry::{cardinal_alignment, Buffer2D, Dir4, Dir8, IRect, IVec};
use rl2025::random::{scale_u32_pow, scale_u64_pow, Rng};

fn v(x: i16, y: i16) -> IVec {
    IVec { x, y }
}

#[test]
fn rect_intersection() {
    let a = IRect { x: 0, y: 0, width: 5, height: 4 };
    let b = IRect { x: 2, y: -1, width: 10, height: 3 };
    assert_eq!(a.intersection(b), IRect { x: 2, y: 0, width: 3, height: 2 });
    let c = IRect { x: 7, y: 7, width: 1, height: 1 };
    assert_eq!(a.intersection(c), IRect { x: 7, y: 7, width: 0, height: 0 });
}

#[test]
fn rect_contains_and_clamp() {
    let a = IRect { x: -2, y: -2, width: 4, height: 3 };
    assert!(a.contains(v(-2, -2)));
    assert!(a.contains(v(1, 0)));
    assert!(!a.contains(v(2, 0)));
    assert!(!a.contains(v(0, 1)));
    assert_eq!(a.clamp_pos(v(10, -10)), v(1, -2));
    assert_eq!(a.clamp_pos(v(0, 0)), v(0, 0));
}

#[test]
fn rect_wrap_is_euclidean() {
    let a = IRect { x: 0, y: 0, width: 50, height: 50 };
    assert_eq!(a.wrap(v(-1, 50)), v(49, 0));
    assert_eq!(a.wrap(v(-51, 101)), v(49, 1));
    let b = IRect { x: -6, y: -5, width: 14, height: 10 };
    assert_eq!(b.wrap(v(8, -6)), v(-6, 4));
}

#[test]
fn rect_linear_indices() {
    let a = IRect { x: 3, y: -1, width: 4, height: 2 };
    assert_eq!(a.linear_size(), 8);
    assert_eq!(a.to_linear_index(v(5, 0)), 6);
    assert_eq!(a.to_linear_index(v(2, -1)), usize::MAX);
    assert_eq!(a.from_linear_index(6), v(5, 0));
    for i in 0..8 {
        assert_eq!(a.to_linear_index(a.from_linear_index(i)), i);
    }
    assert_eq!(a.origin(), v(3, -1));
    assert_eq!(a.size(), v(4, 2));
    assert_eq!(a.shift(v(1, 1)), IRect { x: 4, y: 0, width: 4, height: 2 });
}

#[test]
fn tiebreaker_pattern() {
    let row0: Vec<u8> = (0..5).map(|x| v(x, 0).tiebreaker()).collect();
    assert_eq!(row0, vec![0, 1, 3, 2, 4]);
    let row1: Vec<u8> = (0..5).map(|x| v(x, 1).tiebreaker()).collect();
    assert_eq!(row1, vec![3, 2, 4, 0, 1]);
    assert_eq!(v(-1, 0).tiebreaker(), 4);
}

#[test]
fn distances() {
    assert_eq!(v(1, 2).distance1(v(-2, 4)), 5);
    assert_eq!(v(1, 2).distance_max(v(-2, 4)), 3);
    assert_eq!(v(-3, 4).abs(), v(3, 4));
}

#[test]
fn directions() {
    assert_eq!(Dir4::list(), [Dir4::Right, Dir4::Up, Dir4::Left, Dir4::Down]);
    assert_eq!(Dir4::Right.opposite(), Dir4::Left);
    assert_eq!(Dir4::Down.opposite(), Dir4::Up);
    assert_eq!(Dir4::Right.rotate4(1), Dir4::Up);
    assert_eq!(Dir4::Right.rotate4(-1), Dir4::Down);
    assert_eq!(Dir4::Left.rotate4(7), Dir4::Up);
    assert_eq!(Dir4::Down.index(), 3);
    assert!(Dir4::Right.is_primary());
    assert!(Dir4::Up.is_primary());
    assert!(!Dir4::Left.is_primary());
    assert_eq!(Dir8::UpRight.opposite(), Dir8::DownLeft);
    assert_eq!(Dir8::Right.rotate8(-1), Dir8::DownRight);
    assert!(Dir8::UpLeft.is_primary());
    assert!(!Dir8::DownRight.is_primary());
}

#[test]
fn alignment() {
    assert_eq!(cardinal_alignment(v(0, 0), v(0, 3)), Some(Dir4::Up));
    assert_eq!(cardinal_alignment(v(0, 0), v(0, -3)), Some(Dir4::Down));
    assert_eq!(cardinal_alignment(v(1, 0), v(4, 0)), Some(Dir4::Right));
    assert_eq!(cardinal_alignment(v(1, 0), v(-4, 0)), Some(Dir4::Left));
    assert_eq!(cardinal_alignment(v(1, 0), v(2, 1)), None);
    assert_eq!(cardinal_alignment(v(1, 1), v(1, 1)), None);
}

#[test]
fn locks() {
    let a = AnimLock::requiring(3u64);
    let b = AnimLock::reserves(3u64);
    let c = AnimLock::reserves(4u64);
    assert_eq!(a.require, 1u128 << 67);
    assert_eq!(a.reserve, 0);
    assert!(a.overlaps(b));
    assert!(b.overlaps(a));
    assert!(!a.overlaps(c));
    assert!(!AnimLock::empty().overlaps(AnimLock::full()));
    assert!(AnimLock::full().overlaps(b));
    let m = b.merge(c);
    assert_eq!(m.reserve, (1u128 << 67) | (1u128 << 68));
    assert_eq!(pack_id(70), 1u128 << 70);
    let r = AnimLock::empty().require(1u64).reserve(2u64);
    assert_eq!(r.require, (1u128 << 65) | (1u128 << 66));
    assert_eq!(r.reserve, 1u128 << 66);
}

#[test]
fn pcg_outputs() {
    let mut r = Rng::new(42, 54);
    assert_eq!(r.next_u32(), 0);
    assert_eq!(r.next_u32(), 210066564);
    assert_eq!(r.next_u32(), 394496287);
    assert_eq!(r.state, 8371348649056156428);
    let mut s = Rng::new(0x853c49e6748fea9b, 0xda3e39cb94b95bdb);
    assert_eq!(s.next_u32(), 355248013);
    assert_eq!(s.next_u32(), 41705475);
    let mut t = Rng::new(12345, 7);
    assert_eq!(t.next_u64(), 8251198);
    assert_eq!(t.state, 10674949050420159267);
}

#[test]
fn orientation() {
    assert_eq!(orient2di(v(0, 0), v(1, 0), v(0, 1)), -1);
    assert_eq!(orient2di(v(0, 0), v(0, 1), v(1, 0)), 1);
    assert_eq!(orient2di(v(1, 1), v(2, 2), v(3, 3)), 0);
    assert_eq!(orient2di(v(-32768, -32768), v(32767, -32768), v(-32768, 32767)), -4294836225);
}

#[test]
fn shadow_intervals() {
    let s = ShadowInterval(v(1, 1), v(1, -1));
    assert_eq!(s.contains(v(1, 0)), Contains::Inside);
    assert_eq!(s.contains(v(2, 0)), Contains::Inside);
    assert_eq!(s.contains(v(-1, 0)), Contains::Outside);
    assert_eq!(s.contains(v(0, 0)), Contains::Boundary);
    let t = ShadowInterval(v(1, 2), v(1, 0));
    assert!(s.overlaps(t));
    let far = ShadowInterval(v(-1, -1), v(-1, 1));
    assert!(!s.overlaps(far));
    assert_eq!(s.test_shadow(t), Contains::Boundary);
    assert_eq!(s.test_shadow(ShadowInterval(v(2, 1), v(2, -1))), Contains::Inside);
    assert_eq!(s.test_shadow(far), Contains::Outside);
    let mut m = s;
    m.merge(t);
    assert_eq!(m.0, v(1, 2));
    assert_eq!(m.1, v(1, -1));
}

#[test]
fn rect_iteration_both_ways() {
    let a = IRect { x: 1, y: 2, width: 3, height: 2 };
    let mut it = a.iter();
    let mut fwd = vec![];
    while let Some(p) = it.next() {
        fwd.push(p);
    }
    assert_eq!(fwd, vec![v(1, 2), v(2, 2), v(3, 2), v(1, 3), v(2, 3), v(3, 3)]);
    assert_eq!(it.next(), None);
    let mut back = a.iter();
    assert_eq!(back.next_back(), Some(v(3, 3)));
    assert_eq!(back.next_back(), Some(v(2, 3)));
}

#[test]
fn eight_directions() {
    let l = Dir8::list();
    assert_eq!(l[0], Dir8::Right);
    assert_eq!(l[3], Dir8::UpLeft);
    assert_eq!(l[7], Dir8::DownRight);
}

#[test]
fn shadow_coverage() {
    let s = ShadowInterval(v(1, 1), v(1, -1));
    let empty = Shadows { intervals: vec![] };
    assert_eq!(empty.coverage(s), 0);
    let half = ShadowInterval(v(1, 2), v(1, 0));
    let other_half = ShadowInterval(v(1, 0), v(1, -2));
    let two = Shadows { intervals: vec![half, other_half] };
    assert_eq!(two.coverage(s), 2);
    let whole = ShadowInterval(v(1, 2), v(1, -2));
    let covering = Shadows { intervals: vec![half, whole] };
    assert_eq!(covering.coverage(s), 3);
}

#[test]
fn shuffled_directions() {
    let mut r = Rng::new(12345, 7);
    assert_eq!(Dir4::randlist(&mut r), [Dir4::Left, Dir4::Down, Dir4::Right, Dir4::Up]);
    assert_eq!(r.state, 10674949050420159267);
}

#[test]
fn fixed_point_powers() {
    assert_eq!(scale_u32_pow(1 << 31, 1), 2147483648);
    assert_eq!(scale_u32_pow(1 << 31, 2), 1073741824);
    assert_eq!(scale_u32_pow(3 << 30, 3), 1811939328);
    assert_eq!(scale_u32_pow(123456789, 0), 0);
    assert_eq!(scale_u32_pow(4000000000, 5), 3009265536);
    assert_eq!(scale_u64_pow(1 << 63, 1), 9223372036854775807);
    assert_eq!(scale_u64_pow(1 << 63, 2), 4611686018427387903);
    assert_eq!(scale_u64_pow(12345678901234567890, 3), 5529749864443749720);
    assert_eq!(scale_u64_pow(5, 0), u64::MAX);
}

#[test]
fn buffer_access() {
    let rect = IRect { x: -1, y: 0, width: 3, height: 2 };
    let mut b = Buffer2D::new(7u8, rect);
    assert_eq!(b.contents, vec![7u8; 6]);
    b.contents[4] = 9;
    assert_eq!(b.get(v(0, 1)), Some(&9));
    assert_eq!(b.get(v(2, 1)), None);
    assert_eq!(*b.get_wrapped(v(3, 3)), 9);
    assert_eq!(*b.get_wrapped(v(-1, 0)), 7);
    b.fill(1);
    assert_eq!(b.contents, vec![1u8; 6]);
}
