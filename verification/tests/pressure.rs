//! Tests for the register pressure tracker.

use regalloc_core::pressure::{Pressure, RegBank, RegClass, RegClassData, RegInfo};

/// The register-class topology of a 32-bit ARM target: one integer bank with
/// a single top-level class (GPR, 16 registers of width 1), and one
/// floating-point bank with three aliasing top-level classes (S: 32 of width
/// 1, D: 32 of width 2, Q: 16 of width 4).
fn arm32_reginfo() -> RegInfo {
    RegInfo {
        banks: vec![
            RegBank { first_toprc: 0, num_toprcs: 1 },
            RegBank { first_toprc: 1, num_toprcs: 3 },
        ],
        classes: vec![
            RegClassData { width: 1 },
            RegClassData { width: 1 },
            RegClassData { width: 2 },
            RegClassData { width: 4 },
        ],
    }
}

fn arm32_usable() -> Vec<u32> {
    vec![16, 32, 32, 16]
}

fn gpr() -> RegClass {
    RegClass { toprc: 0 }
}

fn s_class() -> RegClass {
    RegClass { toprc: 1 }
}

fn d_class() -> RegClass {
    RegClass { toprc: 2 }
}

fn q_class() -> RegClass {
    RegClass { toprc: 3 }
}

#[test]
fn basic_counting() {
    let reginfo = arm32_reginfo();
    let regs = arm32_usable();
    let gpr = gpr();
    let s = s_class();

    let mut pressure = Pressure::new(&reginfo, &regs);
    let mut count = 0;
    while pressure.check_avail(gpr) == 0 {
        pressure.take(gpr);
        count += 1;
    }
    assert_eq!(count, 16);
    assert_eq!(pressure.check_avail(gpr), 1 << gpr.toprc);
    assert_eq!(pressure.check_avail(s), 0);
    pressure.free(gpr);
    assert_eq!(pressure.check_avail(gpr), 0);
    pressure.take(gpr);
    assert_eq!(pressure.check_avail(gpr), 1 << gpr.toprc);
    assert_eq!(pressure.check_avail(s), 0);
    pressure.reset();
    assert_eq!(pressure.check_avail(gpr), 0);
    assert_eq!(pressure.check_avail(s), 0);
}

#[test]
fn arm_float_bank() {
    let reginfo = arm32_reginfo();
    let regs = arm32_usable();
    let s = s_class();
    let d = d_class();
    let q = q_class();

    let mut pressure = Pressure::new(&reginfo, &regs);
    assert_eq!(pressure.check_avail(s), 0);
    assert_eq!(pressure.check_avail(d), 0);
    assert_eq!(pressure.check_avail(q), 0);

    // Allocating a single S-register should not affect availability.
    pressure.take(s);
    assert_eq!(pressure.check_avail(s), 0);
    assert_eq!(pressure.check_avail(d), 0);
    assert_eq!(pressure.check_avail(q), 0);

    pressure.take(d);
    assert_eq!(pressure.check_avail(s), 0);
    assert_eq!(pressure.check_avail(d), 0);
    assert_eq!(pressure.check_avail(q), 0);

    pressure.take(q);
    assert_eq!(pressure.check_avail(s), 0);
    assert_eq!(pressure.check_avail(d), 0);
    assert_eq!(pressure.check_avail(q), 0);

    // Take a total of 16 S-regs.
    for _ in 1..16 {
        pressure.take(s);
    }
    assert_eq!(pressure.check_avail(s), 0);
    assert_eq!(pressure.check_avail(d), 0);
    assert_eq!(pressure.check_avail(q), 0);

    // We've taken 16 S, 1 D, and 1 Q. There should be 6 more Qs.
    for _ in 0..6 {
        assert_eq!(pressure.check_avail(d), 0);
        assert_eq!(pressure.check_avail(q), 0);
        pressure.take(q);
    }

    // We've taken 16 S, 1 D, and 7 Qs.
    assert!(pressure.check_avail(s) != 0);
    assert_eq!(pressure.check_avail(d), 0);
    assert!(pressure.check_avail(q) != 0);
}

/// A bank of three aliasing classes: narrow (width 1, limit 16), medium
/// (width 2, limit 8) and wide (width 4, limit 4).
fn aliased_reginfo() -> RegInfo {
    RegInfo {
        banks: vec![RegBank { first_toprc: 0, num_toprcs: 3 }],
        classes: vec![
            RegClassData { width: 1 },
            RegClassData { width: 2 },
            RegClassData { width: 4 },
        ],
    }
}

#[test]
fn aliased_bank_boundaries() {
    let reginfo = aliased_reginfo();
    let usable = vec![16, 8, 4];
    let narrow = RegClass { toprc: 0 };
    let medium = RegClass { toprc: 1 };
    let wide = RegClass { toprc: 2 };

    let mut pressure = Pressure::new(&reginfo, &usable);

    // Taking all 16 narrow registers exhausts the bank's 16 register units:
    // all three classes are unavailable, with the narrow class alone to
    // blame.
    for _ in 0..16 {
        assert_eq!(pressure.check_avail(narrow), 0);
        pressure.take(narrow);
    }
    assert_eq!(pressure.check_avail(narrow), 1 << 0);
    assert_eq!(pressure.check_avail(medium), 1 << 0);
    assert_eq!(pressure.check_avail(wide), 1 << 0);

    // 1 narrow + 1 medium + 1 wide is 7 of 16 units: all still available.
    pressure.reset();
    pressure.take(narrow);
    pressure.take(medium);
    pressure.take(wide);
    assert_eq!(pressure.check_avail(narrow), 0);
    assert_eq!(pressure.check_avail(medium), 0);
    assert_eq!(pressure.check_avail(wide), 0);

    // 16 narrow + 1 medium + 7 wide: the narrow class alone already covers
    // each class's unit budget under the conservative min-based estimate, so
    // every query blames exactly the narrow class.
    pressure.reset();
    for _ in 0..16 {
        pressure.take(narrow);
    }
    pressure.take(medium);
    for _ in 0..7 {
        pressure.take(wide);
    }
    assert_eq!(pressure.check_avail(narrow), 1 << 0);
    assert_eq!(pressure.check_avail(medium), 1 << 0);
    assert_eq!(pressure.check_avail(wide), 1 << 0);

    // 2 narrow + 3 medium + 2 wide: no class reaches the budget on its own,
    // but the summed worst case does, so the whole bank's mask comes back.
    pressure.reset();
    for _ in 0..2 {
        pressure.take(narrow);
    }
    for _ in 0..3 {
        pressure.take(medium);
    }
    for _ in 0..2 {
        pressure.take(wide);
    }
    assert_eq!(pressure.check_avail(narrow), 0b111);
    assert_eq!(pressure.check_avail(medium), 0b111);
    assert_eq!(pressure.check_avail(wide), 0b111);
}

#[test]
fn unaliased_saturation() {
    // One bank, one class of width 1 with 5 usable registers: the first 5
    // takes keep availability, the 6th check returns exactly the class's own
    // bit, and one free restores availability.
    let reginfo = RegInfo {
        banks: vec![RegBank { first_toprc: 0, num_toprcs: 1 }],
        classes: vec![RegClassData { width: 1 }],
    };
    let usable = vec![5];
    let c = RegClass { toprc: 0 };
    let mut pressure = Pressure::new(&reginfo, &usable);
    for _ in 0..5 {
        assert_eq!(pressure.check_avail(c), 0);
        pressure.take(c);
    }
    assert_eq!(pressure.check_avail(c), 1 << 0);
    pressure.free(c);
    assert_eq!(pressure.check_avail(c), 0);
}

#[test]
fn reset_matches_fresh() {
    // After an arbitrary take sequence, reset leaves the tracker answering
    // exactly like a freshly built one over the same topology.
    let reginfo = arm32_reginfo();
    let usable = arm32_usable();
    let mut used = Pressure::new(&reginfo, &usable);
    used.take(gpr());
    used.take(s_class());
    used.take(s_class());
    used.take(q_class());
    used.take(d_class());
    used.reset();
    let fresh = Pressure::new(&reginfo, &usable);
    for toprc in 0..4u8 {
        let rc = RegClass { toprc };
        assert_eq!(used.check_avail(rc), fresh.check_avail(rc));
    }
}
