use minikv::storage::Storage;

fn s(x: &str) -> String {
    x.to_string()
}

#[test]
fn set_then_get() {
    let mut st = Storage::new();
    st.set(s("k"), s("v"));
    assert_eq!(st.get(s("k")), Some(s("v")));
    assert_eq!(st.get(s("other")), None);
}

#[test]
fn clear_forgets_every_key() {
    let mut st = Storage::new();
    st.set(s("a"), s("1"));
    st.set(s("b"), s("2"));
    st.set_expire_at(s("b"), 100, 1000).unwrap();
    st.clear();
    assert!(!st.has(s("a")));
    assert!(!st.has(s("b")));
    assert_eq!(st.get_ttl_at(s("b"), 1000), -2);
}

#[test]
fn ttl_counts_down_then_key_is_gone() {
    let mut st = Storage::new();
    st.set(s("k"), s("v"));
    assert_eq!(st.get_ttl_at(s("k"), 1000), -1);
    st.set_expire_at(s("k"), 10, 1000).unwrap();
    assert_eq!(st.get_ttl_at(s("k"), 1000), 10);
    assert_eq!(st.get_ttl_at(s("k"), 1004), 6);
    assert_eq!(st.get_ttl_at(s("k"), 1010), 0);
    assert_eq!(st.get_at(s("k"), 1010), Some(s("v")));
    assert_eq!(st.get_ttl_at(s("k"), 1011), -2);
    assert!(!st.has_at(s("k"), 1000));
}

#[test]
fn ttl_with_real_clock_is_within_bounds() {
    let mut st = Storage::new();
    st.set(s("k"), s("v"));
    st.set_expire(s("k"), 10).unwrap();
    let t = st.get_ttl(s("k"));
    assert!((0..=10).contains(&t));
    assert_eq!(st.get_ttl(s("missing")), -2);
}

#[test]
fn expired_key_is_removed_when_seen() {
    let mut st = Storage::new();
    st.set(s("k"), s("v"));
    st.set_expire_at(s("k"), 0, 500).unwrap();
    assert!(st.has_at(s("k"), 500));
    assert_eq!(st.get_at(s("k"), 501), None);
    assert!(!st.has_at(s("k"), 0));
}

#[test]
fn negative_expire_deletes_at_once() {
    let mut st = Storage::new();
    st.set(s("k"), s("v"));
    st.set_expire_at(s("k"), -1, 500).unwrap();
    assert_eq!(st.get_at(s("k"), 500), None);
    assert_eq!(st.get_ttl_at(s("k"), 500), -2);
}

#[test]
fn set_keeps_an_existing_deadline() {
    let mut st = Storage::new();
    st.set(s("k"), s("v"));
    st.set_expire_at(s("k"), 5, 100).unwrap();
    st.set(s("k"), s("w"));
    assert_eq!(st.get_ttl_at(s("k"), 100), 5);
    assert_eq!(st.get_at(s("k"), 106), None);
}

#[test]
fn del_removes_the_value() {
    let mut st = Storage::new();
    st.set(s("k"), s("v"));
    st.del(s("k"));
    assert_eq!(st.get(s("k")), None);
    st.del(s("never"));
}

#[test]
fn huge_expiry_saturates() {
    let mut st = Storage::new();
    st.set(s("k"), s("v"));
    st.set_expire_at(s("k"), i64::MAX, u64::MAX - 5).unwrap();
    assert_eq!(st.get_ttl_at(s("k"), u64::MAX - 5), 5);
    st.set_expire_at(s("k"), i64::MAX, 0).unwrap();
    assert_eq!(st.get_ttl_at(s("k"), 0), i64::MAX);
}
