use coveapi::utils::text::{
    chars_of, comes_before, decimal_text, occurs, parse_u16, replace_all, same_text, split, trim, trim_where,
};
use coveapi::utils::Error;

#[test]
fn texts_are_compared_by_their_characters() {
    assert!(same_text("", ""));
    assert!(same_text("caf\u{e9}", "caf\u{e9}"));
    assert!(!same_text("cafe", "caf\u{e9}"));
    assert!(!same_text("a", "ab"));
    assert_eq!(chars_of("a\u{e9}\u{4e16}"), vec!['a', '\u{e9}', '\u{4e16}']);
    assert!(chars_of("").is_empty());
}

#[test]
fn literal_is_found_where_it_stands() {
    let text = chars_of("abcabc");
    assert!(occurs(&text, 0, &chars_of("abc")));
    assert!(!occurs(&text, 1, &chars_of("abc")));
    assert!(occurs(&text, 3, &chars_of("abc")));
    assert!(!occurs(&text, 4, &chars_of("abc")));
    assert!(occurs(&text, 6, &chars_of("")));
    assert!(!occurs(&text, 7, &chars_of("")));
    assert!(!occurs(&text, usize::MAX, &chars_of("a")));
}

#[test]
fn occurrences_are_replaced_from_left_to_right() {
    assert_eq!(replace_all("aaa", "aa", "b"), "ba");
    assert_eq!(replace_all("abab", "ab", "ab-"), "ab-ab-");
    assert_eq!(replace_all("abc", "", "x"), "abc");
    assert_eq!(replace_all("", "a", "x"), "");
    assert_eq!(replace_all("abc", "abcd", "x"), "abc");
    assert_eq!(replace_all("a.b.c", ".", ""), "abc");
    assert_eq!(replace_all("\u{e9}t\u{e9}", "\u{e9}", "e"), "ete");
    assert_eq!(replace_all("a.b", ".", ".."), "a..b");
}

#[test]
fn text_is_cut_at_each_separator() {
    assert_eq!(split("a,b,c", ","), vec!["a", "b", "c"]);
    assert_eq!(split("a,b,", ","), vec!["a", "b", ""]);
    assert_eq!(split(",", ","), vec!["", ""]);
    assert_eq!(split("", ","), vec![""]);
    assert_eq!(split("abc", ""), vec!["abc"]);
    assert_eq!(split("a--b---c", "--"), vec!["a", "b", "-c"]);
    assert_eq!(split("\u{e9},\u{e8}", ","), vec!["\u{e9}", "\u{e8}"]);
}

#[test]
fn white_space_is_trimmed_at_both_ends() {
    assert_eq!(trim("  a b \n"), "a b");
    assert_eq!(trim("a"), "a");
    assert_eq!(trim(""), "");
    assert_eq!(trim(" \t\r\n"), "");
    assert_eq!(trim("\u{a0}\u{3000}x\u{2003}"), "x");
    assert_eq!(trim("\u{200b}x"), "\u{200b}x");
}

#[test]
fn marked_characters_are_trimmed_at_both_ends() {
    assert_eq!(trim_where("abcde", &vec![true, true, false, true, true]), "c");
    assert_eq!(trim_where("abcde", &vec![true, false, true, false, true]), "bcd");
    assert_eq!(trim_where("abc", &vec![true, true, true]), "");
    assert_eq!(trim_where("abc", &vec![false, false, false]), "abc");
    assert_eq!(trim_where("abc", &vec![true]), "abc");
    assert_eq!(trim_where("", &vec![]), "");
}

#[test]
fn numbers_are_spelled_in_decimal() {
    assert_eq!(decimal_text(0), "0");
    assert_eq!(decimal_text(7), "7");
    assert_eq!(decimal_text(10), "10");
    assert_eq!(decimal_text(405), "405");
    assert_eq!(decimal_text(13750), "13750");
    assert_eq!(decimal_text(u16::MAX), "65535");
}

#[test]
fn texts_are_ordered_as_in_the_dictionary() {
    assert!(comes_before("", "a"));
    assert!(!comes_before("", ""));
    assert!(!comes_before("a", ""));
    assert!(comes_before("a", "b"));
    assert!(comes_before("a", "ab"));
    assert!(!comes_before("ab", "a"));
    assert!(comes_before("Z", "a"));
    assert!(comes_before("z", "\u{e9}"));
    assert!(comes_before("\u{e9}", "\u{4e16}"));
    assert!(!comes_before("abc", "abc"));
    for (a, b) in [("/a", "/b"), ("/a/b", "/a/c"), ("x", "x/"), ("1", "10")] {
        assert_eq!(comes_before(a, b), a < b);
        assert_eq!(comes_before(b, a), b < a);
    }
}

#[test]
fn every_error_has_its_message() {
    let text = || "X".to_string();
    let cases = vec![
        (Error::InvalidApplicationURL(text()), "Invalid application URL provided: X"),
        (Error::MissingConfiguration, "Your configuration is missing wither a mapping or an openapi source with it's respective application URL."),
        (Error::ConflictingConfiguration, "You can either provide a mapping or openapi location, port and application URL. Providing both is not possible at this time."),
        (Error::UnexpectedIOIssue(text()), "An issue with IO occured: X"),
        (Error::ProblemOpeningFile(text()), "An issue opening the openapi (X) file occured."),
        (Error::InvalidParseSyntax, "The syntax of the openapi file is incorrect."),
        (Error::InvalidParseMethod(text()), "The openapi file contains an invalid method: X"),
        (Error::InvalidParseStatusCode(text()), "The openapi file contains an invalid status code: X"),
        (Error::UnknownInternalError(text()), "An unknown internal error occured, please open an issue on github for this [X]."),
        (Error::InvalidBasePath, "Basepath provided in openapi spec isn't valid."),
        (Error::InvalidMethodString(text()), "The following method you provided is invalid: \"X\""),
        (Error::InvalidStatusCode(text()), "The following status code you provided is invalid: \"X\""),
        (Error::UnknownOpenApiFormat, "CoveAPI can only parse json and yaml formats,"),
        (Error::InvalidTestCoverage, "Your test coverage has to be a value between 0 and 1 or a percentage between 0% and 100%."),
        (Error::OpenapiFetchConnectionFailure, "No connection to the specified openapi url could be made."),
        (Error::OpenapiFetchInvalidUrl, "The specified openapi url is invalid."),
        (Error::OpenapiMalformedOnlineComponents, "Some contents of the specified openapi resource are malformed."),
        (Error::InvalidPortNumber(text()), "The specified port number is invalid: \"X\""),
        (Error::InvalidMappingSyntax(text()), "The syntax of your mapping is invalid: X"),
        (Error::MissingMapping, "Please provide a mapping to your configuration, the current mapping is either empty or wasn't provided."),
        (Error::MappingMissingSemicolon(text()), "The follwing mapping is missing a semicolon or is incomplete, please follow the 'service url; openapi source; port;' syntax: X"),
        (Error::OpenapiPathIsAbsolute(text()), "The following path is absolute, please only specify relative paths: X"),
        (Error::MappingDuplicatePorts, "The mapping contains duplicate ports, every port can only be used once."),
        (Error::InvalidPath(text()), "The following path failed to parse: X"),
    ];
    for (error, message) in cases {
        assert_eq!(error.get_error_msg(), message);
    }
}

#[test]
fn numbers_are_read_as_the_standard_library_reads_them() {
    assert_eq!(parse_u16("0"), Some(0));
    assert_eq!(parse_u16("+0"), Some(0));
    assert_eq!(parse_u16("007"), Some(7));
    assert_eq!(parse_u16("65535"), Some(65535));
    assert_eq!(parse_u16("+65535"), Some(65535));
    assert_eq!(parse_u16("0000000000000000000000065535"), Some(65535));
    assert_eq!(parse_u16("65536"), None);
    assert_eq!(parse_u16("99999999999999999999999999"), None);
    assert_eq!(parse_u16("655350"), None);
    assert_eq!(parse_u16(""), None);
    assert_eq!(parse_u16("+"), None);
    assert_eq!(parse_u16("-"), None);
    assert_eq!(parse_u16("-0"), None);
    assert_eq!(parse_u16("++1"), None);
    assert_eq!(parse_u16("1+"), None);
    assert_eq!(parse_u16(" 1"), None);
    assert_eq!(parse_u16("1 "), None);
    assert_eq!(parse_u16("1_0"), None);
    assert_eq!(parse_u16("0x1"), None);
    assert_eq!(parse_u16("1e2"), None);
    assert_eq!(parse_u16("/"), None);
    assert_eq!(parse_u16(":"), None);
    assert_eq!(parse_u16("\u{661}"), None);
    assert_eq!(parse_u16("\u{ff11}"), None);
    assert_eq!(parse_u16("99999\u{e9}"), None);

    let mut state = 5u64;
    let alphabet = ['0', '1', '5', '6', '9', '+', '-', ' ', 'a', '/', ':', '\u{ff11}'];
    for _ in 0..20000 {
        let mut text = String::new();
        state = state.wrapping_mul(6364136223846793005).wrapping_add(1442695040888963407);
        let length = (state >> 60) as usize % 8;
        for _ in 0..length {
            state = state.wrapping_mul(6364136223846793005).wrapping_add(1442695040888963407);
            text.push(alphabet[(state >> 33) as usize % if length % 2 == 0 { 6 } else { alphabet.len() }]);
        }
        assert_eq!(parse_u16(&text), text.parse::<u16>().ok(), "{:?}", text);
    }
    for number in 0..=u16::MAX {
        assert_eq!(parse_u16(&number.to_string()), Some(number));
        assert_eq!(decimal_text(number), number.to_string());
    }
}
