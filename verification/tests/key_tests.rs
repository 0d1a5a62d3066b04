use kbuckets::key::key_avg;
use kbuckets::key::key_eq;
use kbuckets::key::key_le;
use kbuckets::key::key_space_end;
use kbuckets::key::key_space_start;
use kbuckets::key::key_succ;

#[test]
fn key_order_is_big_endian() {
    let a = [0u8; 20];
    let mut b = [0u8; 20];
    b[19] = 1;
    let mut c = [0u8; 20];
    c[0] = 1;
    assert!(key_le(&a, &a));
    assert!(key_le(&a, &b));
    assert!(!key_le(&b, &a));
    assert!(key_le(&b, &c));
    assert!(!key_le(&c, &b));
    assert!(key_le(&key_space_start(), &c));
    assert!(key_le(&c, &key_space_end()));
}

#[test]
fn key_equality_is_bytewise() {
    let a = [3u8; 20];
    let mut b = [3u8; 20];
    assert!(key_eq(&a, &b));
    b[10] = 4;
    assert!(!key_eq(&a, &b));
}

#[test]
fn successor_carries_through_trailing_ff() {
    let mut a = [0u8; 20];
    a[18] = 7;
    a[19] = 255;
    let s = key_succ(&a);
    let mut expect = [0u8; 20];
    expect[18] = 8;
    expect[19] = 0;
    assert_eq!(s, expect);

    let t = key_succ(&key_space_start());
    let mut one = [0u8; 20];
    one[19] = 1;
    assert_eq!(t, one);
}

#[test]
fn midpoint_of_whole_space() {
    let m = key_avg(&key_space_start(), &key_space_end());
    let mut expect = [255u8; 20];
    expect[0] = 0x7F;
    assert_eq!(m, expect);
}

#[test]
fn midpoint_rounds_down() {
    let mut a = [0u8; 20];
    a[19] = 3;
    let mut b = [0u8; 20];
    b[19] = 6;
    let m = key_avg(&a, &b);
    let mut expect = [0u8; 20];
    expect[19] = 4;
    assert_eq!(m, expect);

    // an odd sum with a carry across bytes
    let mut c = [0u8; 20];
    c[18] = 1;
    let mut d = [0u8; 20];
    d[18] = 2;
    d[19] = 1;
    let n = key_avg(&c, &d);
    let mut expect2 = [0u8; 20];
    expect2[18] = 1;
    expect2[19] = 0x80;
    assert_eq!(n, expect2);
}
