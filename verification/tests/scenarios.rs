use naturalize::to_natural;

#[test]
fn test_empty() {
    assert_eq!(to_natural("").unwrap(), "".to_string());
}

#[test]
fn test_num() {
    assert_eq!(to_natural("1020").unwrap(), "0000001020".to_string());
}

#[test]
fn test_big_num() {
    assert_eq!(
        to_natural("102030405060708090").unwrap(),
        "102030405060708090".to_string()
    );
}

#[test]
fn test_text() {
    assert_eq!(to_natural("Hello").unwrap(), "Hello".to_string());
}

#[test]
fn test_num_text() {
    assert_eq!(
        to_natural("10 apples").unwrap(),
        "0000000010 apples".to_string()
    );
}

#[test]
fn test_text_num() {
    assert_eq!(
        to_natural("apples 10").unwrap(),
        "apples 0000000010".to_string()
    );
}

#[test]
fn test_ip1() {
    assert_eq!(
        to_natural("172.29.21.151").unwrap(),
        "0000000172.0000000029.0000000021.0000000151".to_string()
    );
}

#[test]
fn test_ip2() {
    assert_eq!(
        to_natural("IP = 172.29.21.151").unwrap(),
        "IP = 0000000172.0000000029.0000000021.0000000151".to_string()
    );
}

#[test]
fn test_text_num_text() {
    assert_eq!(to_natural("abc123def").unwrap(), "abc0000000123def".to_string());
}
