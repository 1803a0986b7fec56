use dt::HashKey;

#[test]
fn str_and_string_hash_alike() {
    let owned = String::from("hello");
    assert_eq!("hello".hash_code(), owned.hash_code());
    assert_eq!("hello".hash_code(), "hello".hash_code());
    assert_ne!("hello".hash_code(), "hellp".hash_code());
}

#[test]
fn str_equality_is_by_content() {
    assert!("ab".key_eq(&"ab"));
    assert!(!"ab".key_eq(&"abc"));
    assert!(!"é".key_eq(&"e"));
    assert!("".key_eq(&""));
    assert!(String::from("x").key_eq(&String::from("x")));
    assert!(!String::from("x").key_eq(&String::from("y")));
}

#[test]
fn integer_keys_hash_by_their_bytes() {
    assert_eq!(5usize.hash_code(), 5u64.hash_code());
    assert_eq!((-1i32).hash_code(), u32::MAX.hash_code());
    assert_ne!(1u64.hash_code(), 2u64.hash_code());
    assert_ne!(1u32.hash_code(), 1u64.hash_code());
    assert!(7u32.key_eq(&7));
    assert!(!7i32.key_eq(&-7));
}
