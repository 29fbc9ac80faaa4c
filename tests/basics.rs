use pcbcap::registry::Registry;
use pcbcap::math::modulo;
use pcbcap::xorwow::{Xorwow, jn, palette, sp};

#[test]
fn registry_ids_in_first_seen_order() {
    let mut r = Registry::new();
    assert_eq!(r.register("N/C"), 0);
    assert_eq!(r.register("GND"), 1);
    assert_eq!(r.register("VCC"), 2);
    assert_eq!(r.register("GND"), 1);
    assert_eq!(r.len(), 3);
    assert_eq!(r.find_id("VCC"), Some(2));
    assert_eq!(r.find_id("X"), None);
    assert_eq!(r.find_name(1), Some("GND"));
    assert_eq!(r.find_name(3), None);
}

#[test]
fn xorwow_sequence() {
    let mut x = Xorwow::new(1);
    assert_eq!((x.a, x.b, x.c, x.d, x.counter), (1684049841, 1526350995, 3137278911, 2561228403, 371135488));
    assert_eq!(x.next(), 4161962581);
    assert_eq!(x.next64(), jn(1511856618, 3191904776));
    x.reset(5);
    assert_eq!(x.next(), 362523);
}

#[test]
fn palette_colours() {
    let mut x = Xorwow::new(1);
    assert_eq!(palette(&mut x, 3), vec![(18, 130, 85), (29, 25, 234), (64, 154, 8)]);
}

#[test]
fn words_join_and_split() {
    assert_eq!(jn(1, 2), (1u64 << 32) | 2);
    assert_eq!(sp(0x0000_0003_0000_0004), (3, 4));
}

#[test]
fn modulo_is_non_negative() {
    assert_eq!(modulo(-1, 5), 4);
    assert_eq!(modulo(-5, 5), 0);
    assert_eq!(modulo(7, 5), 2);
    assert_eq!(modulo(isize::MIN, 3), ((isize::MIN as i128).rem_euclid(3)) as usize);
}
