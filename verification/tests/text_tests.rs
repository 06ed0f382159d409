use haremal_ctrl::numbers::{format_i32, parse_bool, parse_i32, parse_u32, parse_usize};
use haremal_ctrl::text::{
    from_chars, lines_of, replace_chars, split_chars, to_chars, trim_chars, words_of,
};

fn cs(s: &str) -> Vec<char> {
    s.chars().collect()
}

fn strs(v: &Vec<Vec<char>>) -> Vec<String> {
    v.iter().map(|x| x.iter().collect()).collect()
}

#[test]
fn chars_round_trip() {
    let v = to_chars("héllo wörld");
    assert_eq!(v, cs("héllo wörld"));
    assert_eq!(from_chars(&v), "héllo wörld");
    assert_eq!(from_chars(&Vec::new()), "");
}

#[test]
fn split_like_str_split() {
    assert_eq!(strs(&split_chars(&cs("a,b,,c"), &cs(","))), vec!["a", "b", "", "c"]);
    assert_eq!(strs(&split_chars(&cs(""), &cs(","))), vec![""]);
    assert_eq!(strs(&split_chars(&cs("aaa"), &cs("aa"))), vec!["", "a"]);
    assert_eq!(strs(&split_chars(&cs("baaa"), &cs("aa"))), vec!["b", "a"]);
    assert_eq!(strs(&split_chars(&cs("x<s>y<s>"), &cs("<s>"))), vec!["x", "y", ""]);
}

#[test]
fn replace_like_str_replace() {
    assert_eq!(from_chars(&replace_chars(&cs("USB\\x20Mouse"), &cs("\\x20"), &cs(" "))), "USB Mouse");
    assert_eq!(from_chars(&replace_chars(&cs("'Adwaita'"), &cs("'"), &cs(""))), "Adwaita");
    assert_eq!(from_chars(&replace_chars(&cs("aaaa"), &cs("aa"), &cs("b"))), "bb");
}

#[test]
fn words_split_on_any_whitespace() {
    assert_eq!(strs(&words_of(&cs("  a\tbb \n c  "))), vec!["a", "bb", "c"]);
    assert_eq!(strs(&words_of(&cs(" \u{a0} "))), Vec::<String>::new());
    assert_eq!(strs(&words_of(&cs("x\u{2003}y"))), vec!["x", "y"]);
}

#[test]
fn trim_removes_unicode_whitespace() {
    assert_eq!(from_chars(&trim_chars(&cs(" \t'Adwaita'\n"))), "'Adwaita'");
    assert_eq!(from_chars(&trim_chars(&cs("\u{3000}x y\u{a0}"))), "x y");
    assert_eq!(from_chars(&trim_chars(&cs("   "))), "");
}

#[test]
fn lines_like_str_lines() {
    assert_eq!(strs(&lines_of(&cs("a\nb\r\nc"))), vec!["a", "b", "c"]);
    assert_eq!(strs(&lines_of(&cs("a\n"))), vec!["a"]);
    assert_eq!(strs(&lines_of(&cs(""))), Vec::<String>::new());
    assert_eq!(strs(&lines_of(&cs("\n\n"))), vec!["", ""]);
    assert_eq!(strs(&lines_of(&cs("a\r"))), vec!["a\r"]);
}

#[test]
fn parse_unsigned() {
    assert_eq!(parse_u32(&cs("16")), Some(16));
    assert_eq!(parse_u32(&cs("+7")), Some(7));
    assert_eq!(parse_u32(&cs("4294967295")), Some(u32::MAX));
    assert_eq!(parse_u32(&cs("4294967296")), None);
    assert_eq!(parse_u32(&cs("-0")), None);
    assert_eq!(parse_u32(&cs("")), None);
    assert_eq!(parse_u32(&cs("+")), None);
    assert_eq!(parse_u32(&cs(" 1")), None);
    assert_eq!(parse_usize(&cs("5")), Some(5));
    assert_eq!(parse_usize(&cs("x")), None);
}

#[test]
fn parse_signed_and_bool() {
    assert_eq!(parse_i32(&cs("-2147483648")), Some(i32::MIN));
    assert_eq!(parse_i32(&cs("2147483647")), Some(i32::MAX));
    assert_eq!(parse_i32(&cs("2147483648")), None);
    assert_eq!(parse_i32(&cs("-")), None);
    assert_eq!(parse_i32(&cs("-+1")), None);
    assert_eq!(parse_i32(&cs("+3")), Some(3));
    assert_eq!(parse_bool(&cs("true")), Some(true));
    assert_eq!(parse_bool(&cs("false")), Some(false));
    assert_eq!(parse_bool(&cs("True")), None);
}

#[test]
fn format_then_parse_gives_back_the_number() {
    for n in [0, 7, -7, 10, 1920, -1080, i32::MIN, i32::MAX] {
        let text = format_i32(n);
        assert_eq!(from_chars(&text), n.to_string());
        assert_eq!(parse_i32(&text), Some(n));
    }
}
