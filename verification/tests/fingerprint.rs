use image_dedup::fingerprint::{count_bits, Fingerprint, MAX_FINGERPRINT_BYTES};
use image_hasher::ImageHash;

fn fingerprint(bytes: &[u8]) -> Fingerprint {
    Fingerprint::from_bytes(bytes.to_vec()).unwrap()
}

#[test]
fn count_bits_counts_the_ones() {
    assert_eq!(count_bits(0x00), 0);
    assert_eq!(count_bits(0x01), 1);
    assert_eq!(count_bits(0x80), 1);
    assert_eq!(count_bits(0x0F), 4);
    assert_eq!(count_bits(0xAA), 4);
    assert_eq!(count_bits(0xFE), 7);
    assert_eq!(count_bits(0xFF), 8);
}

#[test]
fn count_bits_agrees_with_the_machine_on_every_byte() {
    for b in 0..=255u8 {
        assert_eq!(count_bits(b), b.count_ones());
    }
}

#[test]
fn distance_counts_differing_bits() {
    assert_eq!(fingerprint(&[0xFF, 0x00]).dist(&fingerprint(&[0x0F, 0x01])), 5);
    assert_eq!(fingerprint(&[0x00; 8]).dist(&fingerprint(&[0xFF; 8])), 64);
    assert_eq!(fingerprint(&[0b1010_1010]).dist(&fingerprint(&[0b0101_0101])), 8);
    assert_eq!(fingerprint(&[1, 2, 4]).dist(&fingerprint(&[1, 2, 4])), 0);
}

#[test]
fn distance_is_symmetric_and_zero_on_itself() {
    let a = fingerprint(&[0x12, 0x34, 0x56, 0x78]);
    let b = fingerprint(&[0x9A, 0xBC, 0xDE, 0xF0]);
    assert_eq!(a.dist(&b), b.dist(&a));
    assert_eq!(a.dist(&b), 8);
    assert_eq!(a.dist(&a), 0);
    assert_eq!(b.dist(&b), 0);
}

#[test]
fn distance_ignores_the_surplus_of_the_longer_fingerprint() {
    let short = fingerprint(&[0xFF]);
    let long = fingerprint(&[0x00, 0xFF, 0xFF]);
    assert_eq!(short.dist(&long), 8);
    assert_eq!(long.dist(&short), 8);
    assert_eq!(fingerprint(&[]).dist(&long), 0);
}

#[test]
fn distance_agrees_with_the_hasher_crate() {
    let texts = ["DAIDBwMHAf8", "8/JwVtbOVy4", "DwcHBwcHBwc", "HxcXB4cGBgc"];
    for left in texts {
        for right in texts {
            let l: ImageHash = ImageHash::from_base64(left).unwrap();
            let r: ImageHash = ImageHash::from_base64(right).unwrap();
            let expected = l.dist(&r);
            assert_eq!(fingerprint(l.as_bytes()).dist(&fingerprint(r.as_bytes())), expected);
        }
    }
    let l: ImageHash = ImageHash::from_base64("DwcHBwcHBwc").unwrap();
    let r: ImageHash = ImageHash::from_base64("HxcXB4cGBgc").unwrap();
    assert_eq!(fingerprint(l.as_bytes()).dist(&fingerprint(r.as_bytes())), 6);
    let l: ImageHash = ImageHash::from_base64("DAIDBwMHAf8").unwrap();
    let r: ImageHash = ImageHash::from_base64("DwcHBwcHBwc").unwrap();
    assert_eq!(fingerprint(l.as_bytes()).dist(&fingerprint(r.as_bytes())), 13);
}

#[test]
fn from_bytes_keeps_the_bytes() {
    let f = Fingerprint::from_bytes(vec![9, 8, 7]).unwrap();
    assert_eq!(f.as_bytes(), &[9u8, 8, 7][..]);
    assert_eq!(f.clone(), f);
    let empty = Fingerprint::from_bytes(Vec::new()).unwrap();
    assert!(empty.as_bytes().is_empty());
}

#[test]
fn from_bytes_refuses_more_bytes_than_a_distance_can_count() {
    assert_eq!(MAX_FINGERPRINT_BYTES, 536_870_911);
    assert!(Fingerprint::from_bytes(vec![0u8; MAX_FINGERPRINT_BYTES + 1]).is_none());
}
