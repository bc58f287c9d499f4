use ccd::order::{sort_strings, text_le};

#[test]
fn sort_strings_orders_like_str_ord() {
    let mut v: Vec<String> = Vec::new();
    let mut x: u64 = 11;
    for _ in 0..300 {
        x = x.wrapping_mul(6364136223846793005).wrapping_add(1442695040888963407);
        v.push(format!("d{}\u{e9}{}", (x >> 40) % 97, (x >> 20) % 3));
    }
    let mut expected = v.clone();
    expected.sort();
    sort_strings(&mut v);
    assert_eq!(v, expected);
    let mut one = vec!["only".to_string()];
    sort_strings(&mut one);
    assert_eq!(one, vec!["only".to_string()]);
}

#[test]
fn text_le_is_code_point_order() {
    assert!(text_le("abc", "abd"));
    assert!(text_le("ab", "abc"));
    assert!(!text_le("b", "abc"));
    assert!(text_le("", ""));
    assert!(text_le("z", "\u{e9}"));
}
