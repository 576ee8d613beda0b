use winnow::{
    any, compare, escaped, escaped_transform, find_slice, is_a, is_not, none_of, one_of,
    recognize, tag, tag_no_case, take, take_till, take_until, take_until1, take_while,
    take_while1, take_while_m_n, Bytes, CompareResult, ErrMode, Error, ErrorKind, IResult,
    Needed, Text,
};

fn bs(s: &[u8]) -> Bytes<'_> {
    Bytes::new(s)
}

fn bc(s: &[u8]) -> Bytes<'_> {
    Bytes::complete(s)
}

fn ts(s: &str) -> Text<'_> {
    Text::new(s)
}

fn alpha(c: u8) -> bool {
    c.is_ascii_alphabetic()
}

fn digits(i: Bytes<'_>) -> IResult<Bytes<'_>, &[u8]> {
    take_while1(|c: u8| c.is_ascii_digit(), i)
}

fn escapes(i: Bytes<'_>) -> IResult<Bytes<'_>, u8> {
    one_of(&b"\"n\\"[..], i)
}

fn letters(i: Text<'_>) -> IResult<Text<'_>, &str> {
    take_while1(|c: char| c.is_ascii_alphabetic(), i)
}

fn unescape(i: Text<'_>) -> IResult<Text<'_>, &str> {
    if let Ok((rest, _)) = tag("\\", i) {
        return Ok((rest, "\\"));
    }
    if let Ok((rest, _)) = tag("\"", i) {
        return Ok((rest, "\""));
    }
    let (rest, _) = tag("n", i)?;
    Ok((rest, "\n"))
}

#[test]
fn hello_tag_scenarios() {
    let p = |s: &'static str| tag("Hello", ts(s));
    assert_eq!(p("Hello, World!"), Ok((ts(", World!"), "Hello")));
    assert_eq!(p("H"), Err(ErrMode::Incomplete(Needed::Size(4))));
    assert_eq!(
        p("Something"),
        Err(ErrMode::Backtrack(Error::new(ts("Something"), ErrorKind::Tag)))
    );
    assert_eq!(p("S"), Err(ErrMode::Backtrack(Error::new(ts("S"), ErrorKind::Tag))));
}

#[test]
fn tag_prefix_asks_for_the_rest() {
    let pat = &b"Hello"[..];
    for k in 0..pat.len() {
        let r = tag(pat, bs(&pat[..k]));
        assert_eq!(r, Err(ErrMode::Incomplete(Needed::Size(pat.len() - k))));
    }
    assert_eq!(
        tag(pat, bs(b"Hx")),
        Err(ErrMode::Backtrack(Error::new(bs(b"Hx"), ErrorKind::Tag)))
    );
    assert_eq!(
        tag(pat, bs(b"x")),
        Err(ErrMode::Backtrack(Error::new(bs(b"x"), ErrorKind::Tag)))
    );
    assert_eq!(
        tag(pat, bs(b"Hellx!")),
        Err(ErrMode::Backtrack(Error::new(bs(b"Hellx!"), ErrorKind::Tag)))
    );
}

#[test]
fn tag_counts_missing_bytes_of_text() {
    assert_eq!(tag("點a", ts("")), Err(ErrMode::Incomplete(Needed::Size(4))));
    assert_eq!(tag("點a", ts("點")), Err(ErrMode::Incomplete(Needed::Size(1))));
    assert_eq!(tag("點a", ts("點ab")), Ok((ts("b"), "點a")));
}

#[test]
fn take_while_m_n_scenarios() {
    let p = |s: &'static [u8]| take_while_m_n(3, 6, alpha, bs(s));
    assert_eq!(p(b"latin123"), Ok((bs(b"123"), &b"latin"[..])));
    assert_eq!(p(b"lengthy"), Ok((bs(b"y"), &b"length"[..])));
    assert_eq!(p(b"latin"), Err(ErrMode::Incomplete(Needed::Size(1))));
    assert_eq!(p(b"ed"), Err(ErrMode::Incomplete(Needed::Size(1))));
    assert_eq!(p(b""), Err(ErrMode::Incomplete(Needed::Size(3))));
    assert_eq!(
        p(b"12345"),
        Err(ErrMode::Backtrack(Error::new(bs(b"12345"), ErrorKind::TakeWhileMN)))
    );
    assert_eq!(
        p(b"ab1"),
        Err(ErrMode::Backtrack(Error::new(bs(b"ab1"), ErrorKind::TakeWhileMN)))
    );
}

#[test]
fn take_while_m_n_stays_in_bounds() {
    let inputs: [&[u8]; 8] = [b"a1", b"ab1", b"abc1", b"abcd1", b"abcdefgh", b"abcdef", b"abcdefg1", b"1"];
    for s in inputs {
        if let Ok((rest, out)) = take_while_m_n(2, 5, alpha, bs(s)) {
            assert!(out.len() >= 2 && out.len() <= 5);
            assert_eq!(out.len() + rest.data.len(), s.len());
        }
    }
    assert_eq!(take_while_m_n(2, 5, alpha, bs(b"abcdefgh")), Ok((bs(b"fgh"), &b"abcde"[..])));
    assert_eq!(take_while_m_n(2, 5, alpha, bs(b"abc1")), Ok((bs(b"1"), &b"abc"[..])));
}

#[test]
fn take_until_scenarios() {
    let p = |s: &'static str| take_until("eof", ts(s));
    assert_eq!(p("hello, worldeof"), Ok((ts("eof"), "hello, world")));
    assert_eq!(p("hello, world"), Err(ErrMode::Incomplete(Needed::Unknown)));
    assert_eq!(p("hello, worldeo"), Err(ErrMode::Incomplete(Needed::Unknown)));
    assert_eq!(p("1eof2eof"), Ok((ts("eof2eof"), "1")));
    assert_eq!(p("eof"), Ok((ts("eof"), "")));
}

#[test]
fn take_until1_scenarios() {
    let p = |s: &'static str| take_until1("eof", ts(s));
    assert_eq!(p("hello, worldeof"), Ok((ts("eof"), "hello, world")));
    assert_eq!(p("hello, world"), Err(ErrMode::Incomplete(Needed::Unknown)));
    assert_eq!(p("1eof2eof"), Ok((ts("eof2eof"), "1")));
    assert_eq!(p("eof"), Err(ErrMode::Backtrack(Error::new(ts("eof"), ErrorKind::TakeUntil))));
}

#[test]
fn take_scenarios() {
    assert_eq!(take(6, ts("short")), Err(ErrMode::Incomplete(Needed::Unknown)));
    assert_eq!(take(6, bs(b"short")), Err(ErrMode::Incomplete(Needed::Size(1))));
    assert_eq!(take(6, ts("1234567")), Ok((ts("7"), "123456")));
    assert_eq!(take(6, ts("things")), Ok((ts(""), "things")));
    assert_eq!(take(0, bs(b"")), Ok((bs(b""), &b""[..])));
}

#[test]
fn spans_that_reach_the_end_ask_for_more() {
    assert_eq!(take_while(alpha, bs(b"abc")), Err(ErrMode::Incomplete(Needed::Size(1))));
    assert_eq!(take_while1(alpha, bs(b"abc")), Err(ErrMode::Incomplete(Needed::Size(1))));
    assert_eq!(take_till(alpha, bs(b"123")), Err(ErrMode::Incomplete(Needed::Size(1))));
    assert_eq!(is_a(&b"ab"[..], bs(b"abba")), Err(ErrMode::Incomplete(Needed::Size(1))));
    assert_eq!(is_not(&b"ab"[..], bs(b"xyz")), Err(ErrMode::Incomplete(Needed::Size(1))));
}

#[test]
fn feeding_what_was_asked_for() {
    assert_eq!(tag(&b"Hello"[..], bs(b"Hel")), Err(ErrMode::Incomplete(Needed::Size(2))));
    assert_eq!(tag(&b"Hello"[..], bs(b"Hello")), Ok((bs(b""), &b"Hello"[..])));
    assert_eq!(
        tag(&b"Hello"[..], bs(b"Helx")),
        Err(ErrMode::Backtrack(Error::new(bs(b"Helx"), ErrorKind::Tag)))
    );
    assert_eq!(take(3, bs(b"ab")), Err(ErrMode::Incomplete(Needed::Size(1))));
    assert_eq!(take(3, bs(b"abc")), Ok((bs(b""), &b"abc"[..])));
    assert_eq!(take_while(alpha, bs(b"abc")), Err(ErrMode::Incomplete(Needed::Size(1))));
    assert_eq!(take_while(alpha, bs(b"abc1")), Ok((bs(b"1"), &b"abc"[..])));
}

#[test]
fn complete_mode_resolves_the_end_of_input() {
    assert_eq!(take_while(alpha, bc(b"abcd")), Ok((bc(b""), &b"abcd"[..])));
    assert_eq!(
        take_while1(alpha, bc(b"")),
        Err(ErrMode::Backtrack(Error::new(bc(b""), ErrorKind::TakeWhile1)))
    );
    assert_eq!(take_while1(alpha, bc(b"ab")), Ok((bc(b""), &b"ab"[..])));
    assert_eq!(take_till(alpha, bc(b"123")), Ok((bc(b""), &b"123"[..])));
    assert_eq!(take_while_m_n(2, 4, alpha, bc(b"abc")), Ok((bc(b""), &b"abc"[..])));
    assert_eq!(
        take_while_m_n(2, 4, alpha, bc(b"a")),
        Err(ErrMode::Backtrack(Error::new(bc(b"a"), ErrorKind::TakeWhileMN)))
    );
    assert_eq!(take(3, bc(b"ab")), Err(ErrMode::Backtrack(Error::new(bc(b"ab"), ErrorKind::Eof))));
    assert_eq!(
        tag(&b"Hello"[..], bc(b"Hel")),
        Err(ErrMode::Backtrack(Error::new(bc(b"Hel"), ErrorKind::Tag)))
    );
    assert_eq!(
        take_until(&b"end"[..], bc(b"abc")),
        Err(ErrMode::Backtrack(Error::new(bc(b"abc"), ErrorKind::TakeUntil)))
    );
    assert_eq!(any(bc(b"")), Err(ErrMode::Backtrack(Error::new(bc(b""), ErrorKind::Eof))));
}

#[test]
fn single_token_matchers() {
    assert_eq!(any(bs(b"xy")), Ok((bs(b"y"), b'x')));
    assert_eq!(any(bs(b"")), Err(ErrMode::Incomplete(Needed::Size(1))));
    assert_eq!(one_of(&b"abc"[..], bs(b"b1")), Ok((bs(b"1"), b'b')));
    assert_eq!(
        one_of(&b"abc"[..], bs(b"x")),
        Err(ErrMode::Backtrack(Error::new(bs(b"x"), ErrorKind::OneOf)))
    );
    assert_eq!(one_of(&b"abc"[..], bs(b"")), Err(ErrMode::Incomplete(Needed::Size(1))));
    assert_eq!(
        one_of(&b"abc"[..], bc(b"")),
        Err(ErrMode::Backtrack(Error::new(bc(b""), ErrorKind::OneOf)))
    );
    assert_eq!(none_of(&b"abc"[..], bs(b"x1")), Ok((bs(b"1"), b'x')));
    assert_eq!(
        none_of(&b"abc"[..], bs(b"a")),
        Err(ErrMode::Backtrack(Error::new(bs(b"a"), ErrorKind::NoneOf)))
    );
    assert_eq!(one_of("點a", ts("點!")), Ok((ts("!"), '點')));
}

#[test]
fn sets_of_chars() {
    assert_eq!(is_a("ab點", ts("a點bc")), Ok((ts("c"), "a點b")));
    assert_eq!(is_not(" \t", ts("Hello, World!")), Ok((ts(" World!"), "Hello,")));
    assert_eq!(
        is_not(" \t", ts(" x")),
        Err(ErrMode::Backtrack(Error::new(ts(" x"), ErrorKind::IsNot)))
    );
}

#[test]
fn case_folding_of_text() {
    assert_eq!(tag_no_case("ÉCOLE", ts("école!")), Ok((ts("!"), "école")));
    assert_eq!(tag_no_case("hello", ts("HeLlO, World!")), Ok((ts(", World!"), "HeLlO")));
    assert_eq!(
        tag_no_case("ÉCOLE", ts("ecole")),
        Err(ErrMode::Backtrack(Error::new(ts("ecole"), ErrorKind::Tag)))
    );
    assert_eq!(tag_no_case("hello", ts("")), Err(ErrMode::Incomplete(Needed::Size(5))));
}

#[test]
fn compare_and_find() {
    assert_eq!(compare(&bs(b"abcd"), &b"abc"[..], false), (CompareResult::Matches, 3));
    assert_eq!(compare(&bs(b"ab"), &b"abc"[..], false).0, CompareResult::Incomplete);
    assert_eq!(compare(&bs(b"ax"), &b"abc"[..], false).0, CompareResult::Mismatch);
    assert_eq!(compare(&bs(b"ABC"), &b"abc"[..], true).0, CompareResult::Matches);
    assert_eq!(compare(&ts("點x"), "點", false), (CompareResult::Matches, 3));
    assert_eq!(find_slice(&bs(b"xxendyyend"), &b"end"[..]), Some(2));
    assert_eq!(find_slice(&ts("點點end"), "end"), Some(6));
    assert_eq!(find_slice(&bs(b"xxen"), &b"end"[..]), None);
}

#[test]
fn needed_of_zero_is_unknown() {
    assert_eq!(Needed::new(0), Needed::Unknown);
    assert_eq!(Needed::new(3), Needed::Size(3));
    assert!(Needed::new(3).is_known());
    assert!(!Needed::Unknown.is_known());
}

#[test]
fn escaped_scenarios() {
    let esc = |s: &'static [u8]| escaped(digits, '\\', escapes, bs(s));
    assert_eq!(esc(b"123;"), Ok((bs(b";"), &b"123"[..])));
    assert_eq!(esc(b"12\\\"34;"), Ok((bs(b";"), &b"12\\\"34"[..])));
    assert_eq!(esc(b"\\n;"), Ok((bs(b";"), &b"\\n"[..])));
    assert_eq!(esc(b";"), Ok((bs(b";"), &b""[..])));
    assert_eq!(esc(b"123"), Err(ErrMode::Incomplete(Needed::Size(1))));
    assert_eq!(esc(b""), Err(ErrMode::Incomplete(Needed::Unknown)));
    assert_eq!(esc(b"12\\"), Err(ErrMode::Incomplete(Needed::Size(1))));
    assert_eq!(esc(b"12\\n"), Err(ErrMode::Incomplete(Needed::Unknown)));
    assert_eq!(
        esc(b"12\\x;"),
        Err(ErrMode::Backtrack(Error::new(bs(b"x;"), ErrorKind::OneOf)))
    );
}

#[test]
fn escaped_with_an_empty_normal_match() {
    fn zero(i: Bytes<'_>) -> IResult<Bytes<'_>, &[u8]> {
        take_while(|c: u8| c.is_ascii_digit(), i)
    }
    assert_eq!(
        escaped(zero, '\\', escapes, bs(b"12;")),
        Err(ErrMode::Incomplete(Needed::Unknown))
    );
    assert_eq!(escaped(zero, '\\', escapes, bc(b"12;")), Ok((bc(b";"), &b"12"[..])));
}

#[test]
fn escaped_complete_mode() {
    let esc = |s: &'static [u8]| escaped(digits, '\\', escapes, bc(s));
    assert_eq!(esc(b"123"), Ok((bc(b""), &b"123"[..])));
    assert_eq!(esc(b"1\\n2"), Ok((bc(b""), &b"1\\n2"[..])));
    assert_eq!(
        esc(b"12\\"),
        Err(ErrMode::Backtrack(Error::new(bc(b"12\\"), ErrorKind::Escaped)))
    );
}

#[test]
fn escaped_transform_scenarios() {
    let p = |s: &'static str| escaped_transform(letters, '\\', unescape, ts(s));
    let want: Vec<char> = "ab\"cd".chars().collect();
    assert_eq!(p("ab\\\"cd\""), Ok((ts("\""), want)));
    let want: Vec<char> = "a\nb\\c".chars().collect();
    assert_eq!(p("a\\nb\\\\c;"), Ok((ts(";"), want)));
    assert_eq!(p("ab"), Err(ErrMode::Incomplete(Needed::Size(1))));
    assert_eq!(p("ab\\n"), Err(ErrMode::Incomplete(Needed::Unknown)));
    assert_eq!(p("ab\\"), Err(ErrMode::Incomplete(Needed::Size(1))));
    assert_eq!(
        p("ab\\x;"),
        Err(ErrMode::Backtrack(Error::new(ts("x;"), ErrorKind::Tag)))
    );
    let done = escaped_transform(letters, '\\', unescape, Text::complete("a\\nb"));
    let want: Vec<char> = "a\nb".chars().collect();
    assert_eq!(done, Ok((Text::complete(""), want)));
}

#[test]
fn escaped_and_transform_split_alike() {
    let inputs = ["ab\\\"cd\";", "x\\n\\\\y!", "plain.", "\\n\\n-"];
    for s in inputs {
        let raw = escaped(letters, '\\', unescape, ts(s));
        let decoded = escaped_transform(letters, '\\', unescape, ts(s));
        let (rest1, span) = raw.unwrap();
        let (rest2, _) = decoded.unwrap();
        assert_eq!(rest1, rest2);
        assert_eq!(span.len() + rest1.data.len(), s.len());
        let again = escaped(letters, '\\', unescape, ts(&s[..span.len() + 1]));
        assert_eq!(again, Ok((ts(&s[span.len()..span.len() + 1]), span)));
    }
}

#[test]
fn delimiter_search_resumes() {
    assert_eq!(take_until(&b"end"[..], bs(b"abc")), Err(ErrMode::Incomplete(Needed::Unknown)));
    assert_eq!(take_until(&b"end"[..], bs(b"abcend")), Ok((bs(b"end"), &b"abc"[..])));
    assert_eq!(take_until(&b"end"[..], bs(b"abenend")), Ok((bs(b"end"), &b"aben"[..])));
}

#[test]
fn cut_is_passed_on_by_sequencing() {
    fn cut(i: Bytes<'_>) -> IResult<Bytes<'_>, &[u8]> {
        Err(ErrMode::Cut(Error::new(i, ErrorKind::Tag)))
    }
    let r = winnow::pair(|i: Bytes<'_>| tag(&b"ab"[..], i), cut, bs(b"abc"));
    assert_eq!(r, Err(ErrMode::Cut(Error::new(bs(b"c"), ErrorKind::Tag))));
}

#[test]
fn recognize_passes_failures_on() {
    let r = recognize(|i: Bytes<'_>| tag(&b"ab"[..], i), bs(b"xy"));
    assert_eq!(r, Err(ErrMode::Backtrack(Error::new(bs(b"xy"), ErrorKind::Tag))));
}
