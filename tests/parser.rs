use aoc24::parser::{
    catch, take_any, take_any_func, take_char, take_either, take_eol, take_first, take_int,
    take_many0, take_many1, take_newline, take_or, take_or3, take_or4, take_second,
    take_separator, take_spacetab, take_str, take_tuple, take_tuple3, take_tuple4, take_uint,
    take_whitespace, with_space, Either,
};

#[test]
fn uint_and_int() {
    assert_eq!(take_uint()("123abc"), Some((123, "abc")));
    assert_eq!(take_uint()("007"), Some((7, "")));
    assert_eq!(take_uint()("x1"), None);
    assert_eq!(take_uint()(""), Some((0, "")));
    assert_eq!(take_uint()("18446744073709551615!"), Some((u64::MAX, "!")));
    assert_eq!(take_uint()("18446744073709551616"), None);
    assert_eq!(take_int()("-42,"), Some((-42, ",")));
    assert_eq!(take_int()("+42"), Some((42, "")));
    assert_eq!(take_int()("42"), Some((42, "")));
    assert_eq!(take_int()("-"), Some((0, "")));
    assert_eq!(take_int()("-x"), None);
}

#[test]
fn literals() {
    assert_eq!(take_str("mul(")("mul(2,3)"), Some(("mul(", "2,3)")));
    assert_eq!(take_str("mul(")("mu"), None);
    assert_eq!(take_char('x')("xyz"), Some(('x', "yz")));
    assert_eq!(take_char('x')("yz"), None);
    assert_eq!(take_any("ab")("bc"), Some(("ab", "c")));
    assert_eq!(take_any("ab")("cb"), None);
    assert_eq!(take_newline()("\nrest"), Some(("\n\r", "rest")));
    assert_eq!(take_whitespace()("\tx"), Some((" \t\r\n", "x")));
    assert_eq!(take_spacetab()("\nx"), None);
    assert_eq!(take_eol()(""), Some(((), "")));
    assert_eq!(take_eol()("a"), None);
    assert_eq!(take_any_func(|c: &char| c.is_ascii_digit())("ab5"), Some(('5', "b5")));
    assert_eq!(take_any_func(|c: &char| c.is_ascii_digit())("ab"), None);
}

#[test]
fn sequences() {
    let p = take_tuple(take_uint(), take_second(take_char(','), take_uint()));
    assert_eq!(p("3,4)"), Some(((3, 4), ")")));
    assert_eq!(p("3;4"), None);
    let f = take_first(take_uint(), take_char(')'));
    assert_eq!(f("9)x"), Some((9, "x")));
    let t3 = take_tuple3(take_uint(), take_char('-'), take_uint());
    assert_eq!(t3("1-2"), Some(((1, '-', 2), "")));
    let t4 = take_tuple4(take_char('a'), take_char('b'), take_char('c'), take_char('d'));
    assert_eq!(t4("abcde"), Some((('a', 'b', 'c', 'd'), "e")));
    assert_eq!(t4("abce"), None);
}

#[test]
fn choices() {
    let p = take_or(take_str("do()"), take_str("don't()"));
    assert_eq!(p("don't()x"), Some(("don't()", "x")));
    let p3 = take_or3(take_char('a'), take_char('b'), take_char('c'));
    assert_eq!(p3("cab"), Some(('c', "ab")));
    assert_eq!(p3("dab"), None);
    let p4 = take_or4(take_char('a'), take_char('b'), take_char('c'), take_char('d'));
    assert_eq!(p4("dab"), Some(('d', "ab")));
    let e = take_either(take_uint(), take_char('x'));
    assert!(matches!(e("12"), Some((Either::Left(12), ""))));
    assert!(matches!(e("xy"), Some((Either::Right('x'), "y"))));
    assert!(e("y").is_none());
}

#[test]
fn repetition() {
    let many = take_many0(take_char('a'));
    assert_eq!(many("aab"), Some((vec!['a', 'a'], "b")));
    assert_eq!(many("b"), Some((vec![], "b")));
    let many1 = take_many1(take_char('a'));
    assert_eq!(many1("b"), None);
    assert_eq!(many1("ab"), Some((vec!['a'], "b")));
    let list = take_separator(take_uint(), take_char(','));
    assert_eq!(list("1,2,3 rest"), Some((vec![1, 2, 3], " rest")));
    assert_eq!(list("1,2,"), Some((vec![1, 2, 0], "")));
    assert_eq!(list("1,"), Some((vec![1, 0], "")));
    assert_eq!(list("x"), Some((vec![], "x")));
}

#[test]
fn spacing_and_mapping() {
    let p = with_space(take_uint());
    assert_eq!(p("  12 \t x"), Some((12, "x")));
    assert_eq!(p("12"), Some((12, "")));
    assert_eq!(p(" \t "), None);
    let c = catch(take_char('-'));
    assert_eq!(c("-5"), Some(((), "5")));
    assert_eq!(c("5"), Some(((), "5")));
    let m = aoc24::parser::map(take_uint(), |x: u64| x * 2);
    assert_eq!(m("21!"), Some((42, "!")));
    assert_eq!(m("!"), None);
}
