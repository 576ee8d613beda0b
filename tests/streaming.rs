use winnow::{
    any, delimited, split_at_offset1, tag, tag_no_case, take, take_until, Bytes, ErrMode, Error,
    ErrorKind, IResult, Needed, Text,
};

fn bs(s: &[u8]) -> Bytes<'_> {
    Bytes::new(s)
}

fn ts(s: &str) -> Text<'_> {
    Text::new(s)
}

fn is_alpha(c: u8) -> bool {
    c.is_ascii_alphabetic()
}

fn alpha(i: Bytes<'_>) -> IResult<Bytes<'_>, &[u8]> {
    split_at_offset1(i, |c: u8| !c.is_ascii_alphabetic(), ErrorKind::Alpha)
}

fn digit(i: Bytes<'_>) -> IResult<Bytes<'_>, &[u8]> {
    split_at_offset1(i, |c: u8| !c.is_ascii_digit(), ErrorKind::Alpha)
}

fn hex_digit(i: Bytes<'_>) -> IResult<Bytes<'_>, &[u8]> {
    split_at_offset1(i, |c: u8| !c.is_ascii_hexdigit(), ErrorKind::Alpha)
}

fn oct_digit(i: Bytes<'_>) -> IResult<Bytes<'_>, &[u8]> {
    split_at_offset1(i, |c: u8| !(b'0'..=b'7').contains(&c), ErrorKind::Alpha)
}

fn alphanumeric(i: Bytes<'_>) -> IResult<Bytes<'_>, &[u8]> {
    split_at_offset1(i, |c: u8| !c.is_ascii_alphanumeric(), ErrorKind::Alpha)
}

fn space(i: Bytes<'_>) -> IResult<Bytes<'_>, &[u8]> {
    split_at_offset1(i, |c: u8| !(c == b' ' || c == b'\t'), ErrorKind::Alpha)
}

fn multispace(i: Bytes<'_>) -> IResult<Bytes<'_>, &[u8]> {
    split_at_offset1(
        i,
        |c: u8| !(c == b' ' || c == b'\t' || c == b'\r' || c == b'\n'),
        ErrorKind::Alpha,
    )
}

#[test]
fn is_a() {
    fn a_or_b(i: &[u8]) -> IResult<Bytes<'_>, &[u8]> {
        winnow::is_a(&b"ab"[..], bs(i))
    }

    let a = &b"abcd"[..];
    assert_eq!(a_or_b(a), Ok((bs(b"cd"), &b"ab"[..])));

    let b = &b"bcde"[..];
    assert_eq!(a_or_b(b), Ok((bs(b"cde"), &b"b"[..])));

    let c = &b"cdef"[..];
    assert_eq!(a_or_b(c), Err(ErrMode::Backtrack(Error::new(bs(c), ErrorKind::IsA))));

    let d = &b"bacdef"[..];
    assert_eq!(a_or_b(d), Ok((bs(b"cdef"), &b"ba"[..])));
}

#[test]
fn is_not() {
    fn a_or_b(i: &[u8]) -> IResult<Bytes<'_>, &[u8]> {
        winnow::is_not(&b"ab"[..], bs(i))
    }

    let a = &b"cdab"[..];
    assert_eq!(a_or_b(a), Ok((bs(b"ab"), &b"cd"[..])));

    let b = &b"cbde"[..];
    assert_eq!(a_or_b(b), Ok((bs(b"bde"), &b"c"[..])));

    let c = &b"abab"[..];
    assert_eq!(a_or_b(c), Err(ErrMode::Backtrack(Error::new(bs(c), ErrorKind::IsNot))));

    let d = &b"cdefba"[..];
    assert_eq!(a_or_b(d), Ok((bs(b"ba"), &b"cdef"[..])));

    let e = &b"e"[..];
    assert_eq!(a_or_b(e), Err(ErrMode::Incomplete(Needed::new(1))));
}

#[test]
fn take_until_incomplete() {
    fn y(i: &[u8]) -> IResult<Bytes<'_>, &[u8]> {
        take_until(&b"end"[..], bs(i))
    }
    assert_eq!(y(&b"nd"[..]), Err(ErrMode::Incomplete(Needed::Unknown)));
    assert_eq!(y(&b"123"[..]), Err(ErrMode::Incomplete(Needed::Unknown)));
    assert_eq!(y(&b"123en"[..]), Err(ErrMode::Incomplete(Needed::Unknown)));
}

#[test]
fn take_until_incomplete_s() {
    fn ys(i: &str) -> IResult<Text<'_>, &str> {
        take_until("end", ts(i))
    }
    assert_eq!(ys("123en"), Err(ErrMode::Incomplete(Needed::Unknown)));
}

#[test]
fn recognize() {
    fn x(i: &[u8]) -> IResult<Bytes<'_>, &[u8]> {
        winnow::recognize(
            |i: Bytes<'_>| {
                delimited(
                    |i: Bytes<'_>| tag(&b"<!--"[..], i),
                    |i: Bytes<'_>| take(5, i),
                    |i: Bytes<'_>| tag(&b"-->"[..], i),
                    i,
                )
            },
            bs(i),
        )
    }
    let r = x(&b"<!-- abc --> aaa"[..]);
    assert_eq!(r, Ok((bs(b" aaa"), &b"<!-- abc -->"[..])));

    let semicolon = bs(b";");

    let ra = winnow::recognize(alpha, bs(b"abc;"));
    assert_eq!(ra, Ok((semicolon, &b"abc"[..])));

    let rd = winnow::recognize(digit, bs(b"123;"));
    assert_eq!(rd, Ok((semicolon, &b"123"[..])));

    let rhd = winnow::recognize(hex_digit, bs(b"123abcDEF;"));
    assert_eq!(rhd, Ok((semicolon, &b"123abcDEF"[..])));

    let rod = winnow::recognize(oct_digit, bs(b"1234567;"));
    assert_eq!(rod, Ok((semicolon, &b"1234567"[..])));

    let ran = winnow::recognize(alphanumeric, bs(b"123abc;"));
    assert_eq!(ran, Ok((semicolon, &b"123abc"[..])));

    let rs = winnow::recognize(space, bs(b" \t;"));
    assert_eq!(rs, Ok((semicolon, &b" \t"[..])));

    let rms = winnow::recognize(multispace, bs(b" \t\r\n;"));
    assert_eq!(rms, Ok((semicolon, &b" \t\r\n"[..])));
}

#[test]
fn take_while() {
    fn f(i: &[u8]) -> IResult<Bytes<'_>, &[u8]> {
        winnow::take_while(is_alpha, bs(i))
    }
    let a = b"";
    let b = b"abcd";
    let c = b"abcd123";
    let d = b"123";

    assert_eq!(f(&a[..]), Err(ErrMode::Incomplete(Needed::new(1))));
    assert_eq!(f(&b[..]), Err(ErrMode::Incomplete(Needed::new(1))));
    assert_eq!(f(&c[..]), Ok((bs(&d[..]), &b[..])));
    assert_eq!(f(&d[..]), Ok((bs(&d[..]), &a[..])));
}

#[test]
fn take_while1() {
    fn f(i: &[u8]) -> IResult<Bytes<'_>, &[u8]> {
        winnow::take_while1(is_alpha, bs(i))
    }
    let a = b"";
    let b = b"abcd";
    let c = b"abcd123";
    let d = b"123";

    assert_eq!(f(&a[..]), Err(ErrMode::Incomplete(Needed::new(1))));
    assert_eq!(f(&b[..]), Err(ErrMode::Incomplete(Needed::new(1))));
    assert_eq!(f(&c[..]), Ok((bs(b"123"), &b[..])));
    assert_eq!(
        f(&d[..]),
        Err(ErrMode::Backtrack(Error::new(bs(&d[..]), ErrorKind::TakeWhile1)))
    );
}

#[test]
fn take_while_m_n() {
    fn x(i: &[u8]) -> IResult<Bytes<'_>, &[u8]> {
        winnow::take_while_m_n(2, 4, is_alpha, bs(i))
    }
    let a = b"";
    let b = b"a";
    let c = b"abc";
    let d = b"abc123";
    let e = b"abcde";
    let f = b"123";

    assert_eq!(x(&a[..]), Err(ErrMode::Incomplete(Needed::new(2))));
    assert_eq!(x(&b[..]), Err(ErrMode::Incomplete(Needed::new(1))));
    assert_eq!(x(&c[..]), Err(ErrMode::Incomplete(Needed::new(1))));
    assert_eq!(x(&d[..]), Ok((bs(b"123"), &c[..])));
    assert_eq!(x(&e[..]), Ok((bs(b"e"), &b"abcd"[..])));
    assert_eq!(
        x(&f[..]),
        Err(ErrMode::Backtrack(Error::new(bs(&f[..]), ErrorKind::TakeWhileMN)))
    );
}

#[test]
fn take_till() {
    fn f(i: &[u8]) -> IResult<Bytes<'_>, &[u8]> {
        winnow::take_till(is_alpha, bs(i))
    }
    let a = b"";
    let b = b"abcd";
    let c = b"123abcd";
    let d = b"123";

    assert_eq!(f(&a[..]), Err(ErrMode::Incomplete(Needed::new(1))));
    assert_eq!(f(&b[..]), Ok((bs(b"abcd"), &b""[..])));
    assert_eq!(f(&c[..]), Ok((bs(b"abcd"), &b"123"[..])));
    assert_eq!(f(&d[..]), Err(ErrMode::Incomplete(Needed::new(1))));
}

#[test]
fn take_till1() {
    fn f(i: &[u8]) -> IResult<Bytes<'_>, &[u8]> {
        winnow::take_till1(is_alpha, bs(i))
    }
    let a = b"";
    let b = b"abcd";
    let c = b"123abcd";
    let d = b"123";

    assert_eq!(f(&a[..]), Err(ErrMode::Incomplete(Needed::new(1))));
    assert_eq!(
        f(&b[..]),
        Err(ErrMode::Backtrack(Error::new(bs(&b[..]), ErrorKind::TakeTill1)))
    );
    assert_eq!(f(&c[..]), Ok((bs(b"abcd"), &b"123"[..])));
    assert_eq!(f(&d[..]), Err(ErrMode::Incomplete(Needed::new(1))));
}

#[test]
fn take_while_utf8() {
    fn f(i: &str) -> IResult<Text<'_>, &str> {
        winnow::take_while(|c: char| c != '點', ts(i))
    }

    assert_eq!(f(""), Err(ErrMode::Incomplete(Needed::new(1))));
    assert_eq!(f("abcd"), Err(ErrMode::Incomplete(Needed::new(1))));
    assert_eq!(f("abcd點"), Ok((ts("點"), "abcd")));
    assert_eq!(f("abcd點a"), Ok((ts("點a"), "abcd")));

    fn g(i: &str) -> IResult<Text<'_>, &str> {
        winnow::take_while(|c: char| c == '點', ts(i))
    }

    assert_eq!(g(""), Err(ErrMode::Incomplete(Needed::new(1))));
    assert_eq!(g("點abcd"), Ok((ts("abcd"), "點")));
    assert_eq!(g("點點點a"), Ok((ts("a"), "點點點")));
}

#[test]
fn take_till_utf8() {
    fn f(i: &str) -> IResult<Text<'_>, &str> {
        winnow::take_till(|c: char| c == '點', ts(i))
    }

    assert_eq!(f(""), Err(ErrMode::Incomplete(Needed::new(1))));
    assert_eq!(f("abcd"), Err(ErrMode::Incomplete(Needed::new(1))));
    assert_eq!(f("abcd點"), Ok((ts("點"), "abcd")));
    assert_eq!(f("abcd點a"), Ok((ts("點a"), "abcd")));

    fn g(i: &str) -> IResult<Text<'_>, &str> {
        winnow::take_till(|c: char| c != '點', ts(i))
    }

    assert_eq!(g(""), Err(ErrMode::Incomplete(Needed::new(1))));
    assert_eq!(g("點abcd"), Ok((ts("abcd"), "點")));
    assert_eq!(g("點點點a"), Ok((ts("a"), "點點點")));
}

#[test]
fn take_utf8() {
    fn f(i: &str) -> IResult<Text<'_>, &str> {
        take(3, ts(i))
    }

    assert_eq!(f(""), Err(ErrMode::Incomplete(Needed::Unknown)));
    assert_eq!(f("ab"), Err(ErrMode::Incomplete(Needed::Unknown)));
    assert_eq!(f("點"), Err(ErrMode::Incomplete(Needed::Unknown)));
    assert_eq!(f("ab點cd"), Ok((ts("cd"), "ab點")));
    assert_eq!(f("a點bcd"), Ok((ts("cd"), "a點b")));
    assert_eq!(f("a點b"), Ok((ts(""), "a點b")));

    fn g(i: &str) -> IResult<Text<'_>, &str> {
        winnow::take_while(|c: char| c == '點', ts(i))
    }

    assert_eq!(g(""), Err(ErrMode::Incomplete(Needed::new(1))));
    assert_eq!(g("點abcd"), Ok((ts("abcd"), "點")));
    assert_eq!(g("點點點a"), Ok((ts("a"), "點點點")));
}

#[test]
fn take_while_m_n_utf8() {
    fn parser(i: &str) -> IResult<Text<'_>, &str> {
        winnow::take_while_m_n(1, 1, |c: char| c == 'A' || c == '😃', ts(i))
    }
    assert_eq!(parser("A!"), Ok((ts("!"), "A")));
    assert_eq!(parser("😃!"), Ok((ts("!"), "😃")));
}

#[test]
fn take_while_m_n_utf8_full_match() {
    fn parser(i: &str) -> IResult<Text<'_>, &str> {
        winnow::take_while_m_n(1, 1, |c: char| c.is_alphabetic(), ts(i))
    }
    assert_eq!(parser("øn"), Ok((ts("n"), "ø")));
}

#[test]
fn recognize_take_while() {
    fn x(i: Bytes<'_>) -> IResult<Bytes<'_>, &[u8]> {
        winnow::take_while(|c: u8| c.is_ascii_alphanumeric(), i)
    }
    fn y(i: Bytes<'_>) -> IResult<Bytes<'_>, &[u8]> {
        winnow::recognize(x, i)
    }
    assert_eq!(x(bs(b"ab.")), Ok((bs(b"."), &b"ab"[..])));
    println!("X: {:?}", x(bs(b"ab")));
    assert_eq!(y(bs(b"ab.")), Ok((bs(b"."), &b"ab"[..])));
}

fn length_data(i: Bytes<'_>) -> IResult<Bytes<'_>, &[u8]> {
    let (i, n) = any(i)?;
    take(n as usize, i)
}

#[test]
fn length_bytes() {
    fn x(i: &[u8]) -> IResult<Bytes<'_>, &[u8]> {
        length_data(bs(i))
    }
    assert_eq!(x(b"\x02..>>"), Ok((bs(b">>"), &b".."[..])));
    assert_eq!(x(b"\x02.."), Ok((bs(&[][..]), &b".."[..])));
    assert_eq!(x(b"\x02."), Err(ErrMode::Incomplete(Needed::new(1))));
    assert_eq!(x(b"\x02"), Err(ErrMode::Incomplete(Needed::new(2))));

    fn y(i: &[u8]) -> IResult<Bytes<'_>, &[u8]> {
        let (i, _) = tag(&b"magic"[..], bs(i))?;
        length_data(i)
    }
    assert_eq!(y(b"magic\x02..>>"), Ok((bs(b">>"), &b".."[..])));
    assert_eq!(y(b"magic\x02.."), Ok((bs(&[][..]), &b".."[..])));
    assert_eq!(y(b"magic\x02."), Err(ErrMode::Incomplete(Needed::new(1))));
    assert_eq!(y(b"magic\x02"), Err(ErrMode::Incomplete(Needed::new(2))));
}

#[test]
fn case_insensitive() {
    fn test(i: &[u8]) -> IResult<Bytes<'_>, &[u8]> {
        tag_no_case(&b"ABcd"[..], bs(i))
    }
    assert_eq!(test(&b"aBCdefgh"[..]), Ok((bs(b"efgh"), &b"aBCd"[..])));
    assert_eq!(test(&b"abcdefgh"[..]), Ok((bs(b"efgh"), &b"abcd"[..])));
    assert_eq!(test(&b"ABCDefgh"[..]), Ok((bs(b"efgh"), &b"ABCD"[..])));
    assert_eq!(test(&b"ab"[..]), Err(ErrMode::Incomplete(Needed::new(2))));
    assert_eq!(
        test(&b"Hello"[..]),
        Err(ErrMode::Backtrack(Error::new(bs(b"Hello"), ErrorKind::Tag)))
    );
    assert_eq!(
        test(&b"Hel"[..]),
        Err(ErrMode::Backtrack(Error::new(bs(b"Hel"), ErrorKind::Tag)))
    );

    fn test2(i: &str) -> IResult<Text<'_>, &str> {
        tag_no_case("ABcd", ts(i))
    }
    assert_eq!(test2("aBCdefgh"), Ok((ts("efgh"), "aBCd")));
    assert_eq!(test2("abcdefgh"), Ok((ts("efgh"), "abcd")));
    assert_eq!(test2("ABCDefgh"), Ok((ts("efgh"), "ABCD")));
    assert_eq!(test2("ab"), Err(ErrMode::Incomplete(Needed::new(2))));
    assert_eq!(
        test2("Hello"),
        Err(ErrMode::Backtrack(Error::new(ts("Hello"), ErrorKind::Tag)))
    );
    assert_eq!(
        test2("Hel"),
        Err(ErrMode::Backtrack(Error::new(ts("Hel"), ErrorKind::Tag)))
    );
}

#[test]
fn tag_fixed_size_array() {
    fn test(i: &[u8]) -> IResult<Bytes<'_>, &[u8]> {
        tag(&[0x42][..], bs(i))
    }
    fn test2(i: &[u8]) -> IResult<Bytes<'_>, &[u8]> {
        let t: &[u8] = &[0x42];
        tag(t, bs(i))
    }
    let input = [0x42, 0x00];
    assert_eq!(test(&input), Ok((bs(b"\x00"), &b"\x42"[..])));
    assert_eq!(test2(&input), Ok((bs(b"\x00"), &b"\x42"[..])));
}
