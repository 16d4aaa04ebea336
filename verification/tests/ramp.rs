use asciicam::asciitable::ASCIITable;

fn ramp(table: &[u8], is_reversed: bool) -> ASCIITable {
    ASCIITable { table: table.to_vec(), init_len: table.len(), is_reversed }
}

#[test]
fn widen_then_narrow_restores_ramp() {
    let original = b"$@B%8&WM#*oahkbdpqwmZO0QLCJUYXzcvunxrjft. ";
    for &rev in &[false, true] {
        let mut t = ramp(original, rev);
        for _ in 0..5 {
            t.inc_threshold();
        }
        assert_eq!(t.threshold(), 5);
        for _ in 0..5 {
            t.dec_threshold();
        }
        assert_eq!(t.threshold(), 0);
        assert_eq!(t.table, original.to_vec());
    }
}

#[test]
fn narrow_at_floor_is_noop() {
    for &rev in &[false, true] {
        let mut t = ramp(b"abc", rev);
        assert_eq!(t.threshold(), 0);
        t.dec_threshold();
        assert_eq!(t.threshold(), 0);
        assert_eq!(t.table, b"abc".to_vec());
    }
}

#[test]
fn reset_restores_canonical_ramp() {
    for &rev in &[false, true] {
        let mut t = ramp(b"xyzw", rev);
        t.inc_threshold();
        t.inc_threshold();
        t.dec_threshold();
        t.inc_threshold();
        t.inc_threshold();
        t.reset_threshold();
        assert_eq!(t.table.len(), t.init_len);
        assert_eq!(t.table, b"xyzw".to_vec());
        assert_eq!(t.threshold(), 0);
    }
}

#[test]
fn reversed_widen_inserts_blanks_at_front() {
    let mut t = ramp(b"abcde", true);
    t.inc_threshold();
    t.inc_threshold();
    assert_eq!(t.table.len(), 7);
    assert_eq!(t.table[0], b' ');
    assert_eq!(t.table[1], b' ');
    assert_eq!(&t.table[2..], b"abcde");
}

#[test]
fn normal_widen_appends_blanks_at_tail() {
    let mut t = ramp(b"abcde", false);
    t.inc_threshold();
    t.inc_threshold();
    assert_eq!(t.table.len(), 7);
    assert_eq!(&t.table[..5], b"abcde");
    assert_eq!(t.table[5], b' ');
    assert_eq!(t.table[6], b' ');
}

#[test]
fn reset_equals_iterated_narrow() {
    for &rev in &[false, true] {
        let mut by_reset = ramp(b"qrstu", rev);
        let mut by_narrow = ramp(b"qrstu", rev);
        for _ in 0..4 {
            by_reset.inc_threshold();
            by_narrow.inc_threshold();
        }
        by_reset.reset_threshold();
        let n = by_narrow.threshold();
        for _ in 0..n {
            by_narrow.dec_threshold();
        }
        assert_eq!(by_reset.table, by_narrow.table);
        assert_eq!(by_reset.threshold(), 0);
        assert_eq!(by_narrow.threshold(), 0);
    }
}

#[test]
fn threshold_counts_extension_glyphs() {
    let mut t = ramp(b"abc", false);
    assert_eq!(t.threshold(), 0);
    t.inc_threshold();
    assert_eq!(t.threshold(), 1);
    t.inc_threshold();
    t.inc_threshold();
    assert_eq!(t.threshold(), 3);
    t.dec_threshold();
    assert_eq!(t.threshold(), 2);
}
