use sort_key::SortKey;

fn key(s: &str) -> SortKey {
    SortKey::try_from(s.to_owned()).unwrap()
}

#[test]
fn is_valid_str() {
    assert!(SortKey::is_valid_str("012"));
    assert!(SortKey::is_valid_str("abc"));
    assert!(SortKey::is_valid_str("0123456789abcdefghijklmnopqrstuvwxyz"));
    assert!(!SortKey::is_valid_str(""));
    assert!(!SortKey::is_valid_str("A"));
    assert!(!SortKey::is_valid_str("120"));
}

#[test]
fn default() {
    let k = SortKey::default();
    assert_eq!(&k.to_string(), "i");
}

#[test]
fn display() {
    let k = SortKey::try_from("012".to_owned()).unwrap();
    assert_eq!(&k.to_string(), "012");
}

#[test]
fn try_from_string() {
    assert!(SortKey::try_from("012".to_owned()).is_ok());
    assert!(SortKey::try_from("120".to_owned()).is_err());
}

#[test]
fn before_normal_case() {
    assert_before("abc");
}

#[test]
fn before_carry_down_case() {
    assert_before("ab1");
}

#[test]
fn before_underflow_case() {
    assert_before("01");
}

fn assert_before(input: &str) {
    let input = SortKey::try_from(input.to_owned()).unwrap();
    let got = input.before();
    assert!(got < input);
}

#[test]
fn after_normal_case() {
    assert_after("abc");
}

#[test]
fn after_carry_up_case() {
    assert_after("abz");
}

#[test]
fn after_multi_carry_up_case() {
    assert_after("abzzz");
}

#[test]
fn after_overflow_case() {
    assert_after("zzz");
}

fn assert_after(input: &str) {
    let input = SortKey::try_from(input.to_owned()).unwrap();
    let got = input.after();
    assert!(got > input);
}

#[test]
fn between_simple_case() {
    assert_between("3", "j");
}

#[test]
fn between_neighbor_case() {
    assert_between("3", "4");
}

#[test]
fn between_difficult_case01() {
    assert_between("x", "x1");
}

#[test]
fn between_difficult_case02() {
    assert_between("x", "x01");
}

#[test]
fn between_difficult_case03() {
    assert_between("xz", "y");
}

#[test]
fn between_difficult_case04() {
    assert_between("abc3", "abd");
}

#[test]
fn between_difficult_case05() {
    assert_between("abc", "abd3");
}

#[test]
fn between_difficult_case06() {
    assert_between("ab2z", "ab3");
}

#[test]
fn between_difficult_case07() {
    assert_between("aaxaaaaaaaaaa", "aaybbbbbbbbbb");
}

#[test]
fn between_difficult_case08() {
    assert_between("hzzzz", "hzzzzi");
}

#[test]
fn between_difficult_case09() {
    assert_between("hzzzzb", "hzzzzci");
}

fn assert_between(low: &str, high: &str) {
    let low = SortKey::try_from(low.to_owned()).unwrap();
    let high = SortKey::try_from(high.to_owned()).unwrap();
    let got = low.between(&high);
    assert!(&low < &got);
    assert!(&got < &high);
    let swapped = high.between(&low);
    assert!(swapped == got);
}

#[test]
fn parse_render_round_trip() {
    for s in ["i", "012", "abc", "zzz", "0000001", "0123456789abcdefghijklmnopqrstuvwxyz"] {
        assert_eq!(key(s).to_string(), s);
    }
}

#[test]
fn parse_rejects_invalid_strings() {
    for s in ["", "A", "120", "0", "ab-c", "é1"] {
        match SortKey::try_from(s.to_owned()) {
            Ok(_) => panic!("accepted {:?}", s),
            Err(e) => assert_eq!(e.0, s),
        }
    }
    assert!(SortKey::parse("012".to_owned()).is_ok());
}

#[test]
fn before_exact_values() {
    assert_eq!(SortKey::default().before().to_string(), "hzzz");
    assert_eq!(key("ab1").before().to_string(), "ab0z");
    assert_eq!(key("01").before().to_string(), "00zzz");
    assert_eq!(key("abc").before().to_string(), "abbz");
    assert_eq!(key("i").before_with_delta(1).to_string(), "hz");
    assert_eq!(key("2").before_with_delta(1).to_string(), "1z");
    assert_eq!(key("1").before_with_delta(1).to_string(), "0z");
}

#[test]
fn after_exact_values() {
    assert_eq!(SortKey::default().after().to_string(), "i001");
    assert_eq!(key("abz").after().to_string(), "abz1");
    assert_eq!(key("zzz").after().to_string(), "zzz001");
    assert_eq!(key("i").after_with_delta(1).to_string(), "i1");
    assert_eq!(key("iz").after_with_delta(1).to_string(), "j1");
    assert_eq!(key("zz").after_with_delta(1).to_string(), "zz1");
}

#[test]
fn between_exact_values() {
    assert_eq!(key("3").between(&key("j")).to_string(), "b");
    assert_eq!(key("3").between(&key("4")).to_string(), "3i");
    assert_eq!(key("x").between(&key("x1")).to_string(), "x0i");
    assert_eq!(key("j").between(&key("3")).to_string(), "b");
}

#[test]
fn try_between_equal_and_distinct() {
    let a = key("abc");
    assert!(a.try_between(&a.clone()).is_none());
    let b = key("abd");
    let got = a.try_between(&b).unwrap();
    assert!(a < got && got < b);
    assert!(got == a.between(&b));
}

#[test]
fn ordering_is_lexicographic() {
    assert!(key("a") < key("a1"));
    assert!(key("a01") < key("a1"));
    assert!(key("az") < key("b"));
    assert!(!(key("b") < key("b")));
    assert!(key("b") == key("b"));
    assert!(key("b") != key("b1"));
    assert_eq!(key("b").partial_cmp(&key("c")), Some(std::cmp::Ordering::Less));
    assert_eq!(key("c").partial_cmp(&key("b")), Some(std::cmp::Ordering::Greater));
    assert_eq!(key("c").partial_cmp(&key("c")), Some(std::cmp::Ordering::Equal));
    assert!(key("b").less(&key("b1")));
    assert!(key("b").same(&key("b")));
}

#[test]
fn key_length() {
    assert_eq!(key("abc").len(), 3);
    assert_eq!(SortKey::default().len(), 1);
    assert_eq!(SortKey::default().before().len(), 4);
}
