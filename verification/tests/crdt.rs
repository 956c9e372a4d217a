use radicle_cobs::gate::Gate;
use radicle_cobs::keys::{Cmp, PublicKey};
use radicle_cobs::lwwreg::LWWReg;
use radicle_cobs::max::Max;
use radicle_cobs::redactable::Redactable;
use radicle_cobs::text::text_compare;

fn reg(s: &str, clock: u64) -> LWWReg<Max<String>> {
    LWWReg::new(Max::new(String::from(s)), clock)
}

#[test]
fn max_merge_keeps_greater() {
    let mut a = Max::new(String::from("apple"));
    a.merge(Max::new(String::from("banana")));
    assert_eq!(a.get().as_str(), "banana");

    let mut b = Max::new(String::from("pear"));
    b.merge(Max::new(String::from("banana")));
    assert_eq!(b.get().as_str(), "pear");
}

#[test]
fn max_laws_scenario() {
    // merge(a, b) == merge(b, a), associativity, and idempotence on
    // concrete values.
    let vals = ["", "a", "b", "ab", "ba"];
    for x in vals {
        for y in vals {
            let mut ab = Max::new(String::from(x));
            ab.merge(Max::new(String::from(y)));
            let mut ba = Max::new(String::from(y));
            ba.merge(Max::new(String::from(x)));
            assert_eq!(ab, ba);
            for z in vals {
                let mut ab_c = ab.clone();
                ab_c.merge(Max::new(String::from(z)));
                let mut bc = Max::new(String::from(y));
                bc.merge(Max::new(String::from(z)));
                let mut a_bc = Max::new(String::from(x));
                a_bc.merge(bc);
                assert_eq!(ab_c, a_bc);
            }
        }
        let mut xx = Max::new(String::from(x));
        xx.merge(Max::new(String::from(x)));
        assert_eq!(xx, Max::new(String::from(x)));
    }
}

#[test]
fn lwwreg_higher_clock_wins() {
    let mut r = reg("old", 5);
    r.merge(reg("new", 9));
    assert_eq!(r.get().get().as_str(), "new");
    assert_eq!(r.clock(), 9);

    // A stale write does not land.
    r.set(Max::new(String::from("stale")), 3);
    assert_eq!(r.get().get().as_str(), "new");
}

#[test]
fn lwwreg_tie_breaks_by_value() {
    // Equal clocks resolve deterministically by the value's own order.
    let mut a = reg("apple", 7);
    a.merge(reg("banana", 7));
    assert_eq!(a.get().get().as_str(), "banana");

    let mut b = reg("banana", 7);
    b.merge(reg("apple", 7));
    assert_eq!(b.get().get().as_str(), "banana");
    assert_eq!(a, b);
}

#[test]
fn lwwreg_laws_scenario() {
    let samples = [("a", 1u64), ("b", 1), ("c", 2), ("", 0)];
    for (xv, xc) in samples {
        for (yv, yc) in samples {
            let mut xy = reg(xv, xc);
            xy.merge(reg(yv, yc));
            let mut yx = reg(yv, yc);
            yx.merge(reg(xv, xc));
            assert_eq!(xy, yx);
            for (zv, zc) in samples {
                let mut xy_z = xy.clone();
                xy_z.merge(reg(zv, zc));
                let mut yz = reg(yv, yc);
                yz.merge(reg(zv, zc));
                let mut x_yz = reg(xv, xc);
                x_yz.merge(yz);
                assert_eq!(xy_z, x_yz);
            }
        }
        let mut xx = reg(xv, xc);
        xx.merge(reg(xv, xc));
        assert_eq!(xx, reg(xv, xc));
    }
}

#[test]
fn gate_container() {
    let open: Gate<u64> = Gate::open(7);
    let closed: Gate<u64> = Gate::closed();
    assert!(open.is_open());
    assert!(!open.is_closed());
    assert!(closed.is_closed());
    assert_eq!(open.get(), Some(&7));
    assert_eq!(closed.get(), None);

    let mut g = Gate::open(1);
    g.close();
    assert!(g.is_closed());
}

#[test]
fn gate_map_preserves_state() {
    let open: Gate<u64> = Gate::open(21);
    let mapped = open.map(|v| v * 2);
    assert_eq!(mapped.get(), Some(&42));

    let closed: Gate<u64> = Gate::closed();
    let mapped = closed.map(|v| v * 2);
    assert!(mapped.is_closed());
}

#[test]
fn redactable_container() {
    let present: Redactable<u64> = Redactable::Present(3);
    let redacted: Redactable<u64> = Redactable::Redacted;
    assert_eq!(present.get(), Some(&3));
    assert!(!present.is_redacted());
    assert_eq!(redacted.get(), None);
    assert!(redacted.is_redacted());
}

#[test]
fn text_compare_orders_lexicographically() {
    assert!(matches!(text_compare("", ""), Cmp::Equal));
    assert!(matches!(text_compare("", "a"), Cmp::Less));
    assert!(matches!(text_compare("a", ""), Cmp::Greater));
    assert!(matches!(text_compare("abc", "abd"), Cmp::Less));
    assert!(matches!(text_compare("abc", "abc"), Cmp::Equal));
    assert!(matches!(text_compare("ab", "abc"), Cmp::Less));
    assert!(matches!(text_compare("b", "abc"), Cmp::Greater));
}

#[test]
fn public_key_identity() {
    let a = PublicKey::new(1);
    let b = PublicKey::new(1);
    let c = PublicKey::new(2);
    assert_eq!(a, b);
    assert_ne!(a, c);
}
