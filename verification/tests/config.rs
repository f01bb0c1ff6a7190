use lib::config::{get_arg_int_by_key, parse_int, Matches};

fn c(s: &str) -> Vec<char> {
    s.chars().collect()
}

#[test]
fn parse_integers() {
    assert_eq!(parse_int(&c("4414")), Some(4414));
    assert_eq!(parse_int(&c("-12")), Some(-12));
    assert_eq!(parse_int(&c("+7")), Some(7));
    assert_eq!(parse_int(&c("007")), Some(7));
    assert_eq!(parse_int(&c("")), None);
    assert_eq!(parse_int(&c("-")), None);
    assert_eq!(parse_int(&c("12a")), None);
    assert_eq!(parse_int(&c(" 12")), None);
    assert_eq!(parse_int(&c("9223372036854775807")), Some(i64::MAX));
    assert_eq!(parse_int(&c("9223372036854775808")), None);
    assert_eq!(parse_int(&c("-9223372036854775808")), Some(i64::MIN));
    assert_eq!(parse_int(&c("-9223372036854775809")), None);
    assert_eq!(parse_int(&c("99999999999999999999999")), None);
}

#[test]
fn integer_option_or_default() {
    let mut m = Matches::new();
    m.add(c("port"), c("8080"));
    m.add(c("bufsize"), c("big"));
    m.add(c("port"), c("9090"));
    assert_eq!(get_arg_int_by_key(&m, &c("port"), 4414), 8080);
    assert_eq!(get_arg_int_by_key(&m, &c("bufsize"), 512000), 512000);
    assert_eq!(get_arg_int_by_key(&m, &c("concurrency"), 5), 5);
    assert_eq!(m.opt_str(&c("bufsize")), Some(c("big")));
    assert_eq!(m.opt_str(&c("dir")), None);
}
