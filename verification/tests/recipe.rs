use attofab_core::recipe::{resolve_mask, MaskSpec};

#[test]
fn range_mask_opens_the_half_open_range() {
    let m = resolve_mask(&MaskSpec::Range { range: [1, 3], invert: false }, 5);
    assert_eq!(m, vec![false, true, true, false, false]);
}

#[test]
fn inverted_range_mask_closes_the_range() {
    let m = resolve_mask(&MaskSpec::Range { range: [0, 27], invert: true }, 30);
    assert_eq!(m.len(), 30);
    assert!(m[..27].iter().all(|&b| !b));
    assert!(m[27..].iter().all(|&b| b));
}

#[test]
fn explicit_mask_is_taken_as_written() {
    let m = resolve_mask(&MaskSpec::Explicit(vec![true, false, true]), 5);
    assert_eq!(m, vec![true, false, true]);
}
