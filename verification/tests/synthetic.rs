use tracear_core::rng::XorShift64;
use tracear_core::synthetic::textured_image;

#[test]
fn texture_is_deterministic() {
    let a = textured_image(64, 64, 9);
    let b = textured_image(64, 64, 9);
    assert_eq!(a.data, b.data);
    let c = textured_image(64, 64, 10);
    assert_ne!(a.data, c.data);
}

#[test]
fn texture_has_requested_size() {
    let a = textured_image(40, 24, 1);
    assert_eq!((a.w, a.h), (40, 24));
    assert_eq!(a.data.len(), 40 * 24);
}

fn step(s: u64) -> u64 {
    let a = s ^ (s << 13);
    let b = a ^ (a >> 7);
    b ^ (b << 17)
}

#[test]
fn xorshift_follows_the_recurrence() {
    let mut r = XorShift64::new(42);
    let first = r.next_u64();
    assert_eq!(first, step(42));
    assert_eq!(r.next_u64(), step(step(42)));
    // seed 0 would be a fixed point, so it starts from a fixed nonzero state
    let mut z = XorShift64::new(0);
    assert_eq!(z.next_u64(), step(0x9E37_79B9_7F4A_7C15));
    let mut g = XorShift64::new(42);
    assert_eq!(g.gen_range(10), (step(42) % 10) as usize);
}

#[test]
fn draw_distinct_keeps_only_new_indices() {
    let n: usize = 7;
    let mut probe = XorShift64::new(5);
    let v = (step(5) % n as u64) as usize;
    assert_eq!(probe.gen_range(n), v);
    let mut r = XorShift64::new(5);
    assert_eq!(r.draw_distinct(n, &[]), Some(v));
    let mut t = XorShift64::new(5);
    assert_eq!(t.draw_distinct(n, &[v]), None);
    // the refused draw still advanced the generator
    assert_eq!(t.next_u64(), step(step(5)));
}
