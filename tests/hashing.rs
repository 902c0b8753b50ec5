use bricks::ascii_hash::{convert_ascii_char, hash_generic, update_hash_value};

#[test]
fn test_hash_ascii() {
    fn hash(s: &str) -> u8 {
        hash_generic::<u16>(s)
    }
    assert_eq!(hash("HASH"), 52);
    assert_eq!(hash("rn=1"), 30);
    assert_eq!(hash("cm-"), 253);
    assert_eq!(hash("qp=3"), 97);
}

#[test]
fn hash_steps() {
    assert_eq!(convert_ascii_char('H'), 72);
    assert_eq!(update_hash_value(0, 72), 200);
    assert_eq!(update_hash_value(200, 65), 153);
    assert_eq!(hash_generic::<u32>(""), 0);
}
