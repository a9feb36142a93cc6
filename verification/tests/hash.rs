use seed_finder::utils::string_hash;

fn pow31(n: usize) -> i32 {
    let mut p: i32 = 1;
    for _ in 0..n {
        p = p.wrapping_mul(31);
    }
    p
}

#[test]
fn hash_is_the_unit_polynomial() {
    for s in ["", "a", "abc", "灵田", "x😀y", "Hello, world"] {
        let mut h: i32 = 0;
        for u in s.encode_utf16() {
            h = h.wrapping_mul(31).wrapping_add(u as i32);
        }
        assert_eq!(string_hash(s), h);
    }
    assert_eq!(string_hash("abc"), 96354);
}

#[test]
fn hash_of_joined_strings() {
    let parts = [("", "q"), ("seed", "1234"), ("灵", "😀😀"), ("long prefix text", "")];
    for (a, b) in parts {
        let joined = format!("{}{}", a, b);
        let n = b.encode_utf16().count();
        assert_eq!(
            string_hash(&joined),
            string_hash(a).wrapping_mul(pow31(n)).wrapping_add(string_hash(b))
        );
    }
}
