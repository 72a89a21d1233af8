use nom_sql::lexeme::{keyword, skip_digits, skip_spaces, tag_no_case_at, unsigned_number, ParseError};
use nom_sql::select::{limit_clause, LimitClause};

use nom::bytes::complete::tag_no_case;
use nom::character::complete::{digit1, multispace0, multispace1};
use nom::combinator::{map_res, opt};
use nom::sequence::tuple;
use nom::IResult;

fn nom_number(i: &[u8]) -> IResult<&[u8], u64> {
    map_res(digit1, |d: &[u8]| std::str::from_utf8(d).unwrap().parse::<u64>())(i)
}

fn nom_offset(i: &[u8]) -> IResult<&[u8], u64> {
    let (rest, (_, _, _, v)) =
        tuple((multispace0, tag_no_case("offset"), multispace1, nom_number))(i)?;
    Ok((rest, v))
}

fn nom_limit(i: &[u8]) -> IResult<&[u8], (u64, u64)> {
    let (rest, (_, _, _, limit, off)) = tuple((
        multispace0,
        tag_no_case("limit"),
        multispace1,
        nom_number,
        opt(nom_offset),
    ))(i)?;
    Ok((rest, (limit, off.unwrap_or(0))))
}

#[test]
fn limit_alone() {
    let (rest, c) = limit_clause(b"LIMIT 10").unwrap();
    assert_eq!(c, LimitClause { limit: 10, offset: 0 });
    assert_eq!(rest, b"");
}

#[test]
fn limit_with_offset() {
    let (rest, c) = limit_clause(b" limit 5 offset 20;").unwrap();
    assert_eq!(c, LimitClause { limit: 5, offset: 20 });
    assert_eq!(rest, b";");
}

#[test]
fn limit_mixed_case_and_whitespace() {
    let (rest, c) = limit_clause(b"\n\tLiMiT\r\n 7\t OfFsEt   3 rest").unwrap();
    assert_eq!(c, LimitClause { limit: 7, offset: 3 });
    assert_eq!(rest, b" rest");
}

#[test]
fn offset_without_number_is_left_over() {
    let (rest, c) = limit_clause(b"LIMIT 4 OFFSET x").unwrap();
    assert_eq!(c, LimitClause { limit: 4, offset: 0 });
    assert_eq!(rest, b" OFFSET x");
}

#[test]
fn offset_glued_to_keyword_is_left_over() {
    let (rest, c) = limit_clause(b"LIMIT 4 OFFSET9").unwrap();
    assert_eq!(c, LimitClause { limit: 4, offset: 0 });
    assert_eq!(rest, b" OFFSET9");
}

#[test]
fn limit_errors() {
    assert_eq!(limit_clause(b"LIMT 4").unwrap_err(), ParseError::Tag);
    assert_eq!(limit_clause(b"").unwrap_err(), ParseError::Tag);
    assert_eq!(limit_clause(b"LIMIT4").unwrap_err(), ParseError::MultiSpace);
    assert_eq!(limit_clause(b"LIMIT").unwrap_err(), ParseError::MultiSpace);
    assert_eq!(limit_clause(b"LIMIT x").unwrap_err(), ParseError::Digit);
    assert_eq!(limit_clause(b"LIMIT ").unwrap_err(), ParseError::Digit);
    assert_eq!(
        limit_clause(b"LIMIT 18446744073709551616").unwrap_err(),
        ParseError::Overflow
    );
}

#[test]
fn limit_largest_number() {
    let (_, c) = limit_clause(b"LIMIT 18446744073709551615 OFFSET 0").unwrap();
    assert_eq!(c, LimitClause { limit: u64::MAX, offset: 0 });
}

#[test]
fn limit_leading_zeros() {
    let (_, c) = limit_clause(b"limit 007 offset 0010").unwrap();
    assert_eq!(c, LimitClause { limit: 7, offset: 10 });
}

#[test]
fn limit_overflowing_offset_is_left_over() {
    let (rest, c) = limit_clause(b"LIMIT 1 OFFSET 99999999999999999999").unwrap();
    assert_eq!(c, LimitClause { limit: 1, offset: 0 });
    assert_eq!(rest, b" OFFSET 99999999999999999999");
}

#[test]
fn limit_text() {
    assert_eq!(LimitClause { limit: 10, offset: 0 }.to_string(), "LIMIT 10");
    assert_eq!(LimitClause { limit: 0, offset: 5 }.to_string(), "LIMIT 0 OFFSET 5");
    assert_eq!(
        LimitClause { limit: u64::MAX, offset: 1 }.to_string(),
        "LIMIT 18446744073709551615 OFFSET 1"
    );
}

#[test]
fn limit_round_trip() {
    for &(l, o) in &[(0u64, 0u64), (1, 0), (9, 10), (10, 9), (123456, 7890), (u64::MAX, u64::MAX)] {
        let c = LimitClause { limit: l, offset: o };
        let text = c.to_string();
        let (rest, back) = limit_clause(text.as_bytes()).unwrap();
        assert_eq!(back, c);
        assert!(rest.is_empty());
    }
}

#[test]
fn limit_ignores_case() {
    let a = limit_clause(b"limit 3 offset 4 AND").unwrap();
    let b = limit_clause(b"LIMIT 3 OFFSET 4 and").unwrap();
    assert_eq!(a.1, b.1);
    assert_eq!(a.0.len(), b.0.len());
}

#[test]
fn limit_skips_leading_space() {
    let (r1, c1) = limit_clause(b"LIMIT 3 OFFSET 4").unwrap();
    let (r2, c2) = limit_clause(b" \t\r\n LIMIT 3 OFFSET 4").unwrap();
    assert_eq!(c1, c2);
    assert_eq!(r1, r2);
}

#[test]
fn limit_agrees_with_nom_combinators() {
    let inputs: [&[u8]; 16] = [
        b"LIMIT 10",
        b" limit 5 offset 20;",
        b"LIMIT 4 OFFSET x",
        b"LIMIT 4 OFFSET9",
        b"LIMT 4",
        b"",
        b"LIMIT4",
        b"LIMIT x",
        b"LIMIT 18446744073709551616",
        b"LIMIT 18446744073709551615",
        b"\n\tLiMiT\r\n 7\t OfFsEt   3 rest",
        b"limit 1 offset 99999999999999999999",
        b"LIMIT 1 OFFSET",
        b"LIMIT 1 OFFSET ",
        b"LIMIT\x0b1",
        b"lImIt 0001 oFfSeT 0002 ORDER",
    ];
    for i in inputs.iter() {
        let ours = limit_clause(i).ok().map(|(r, c)| (r, (c.limit, c.offset)));
        let theirs = nom_limit(i).ok();
        assert_eq!(ours, theirs, "input {:?}", i);
    }
}

#[test]
fn lexeme_primitives() {
    assert_eq!(skip_spaces(b"  \t\r\nx", 0), 5);
    assert_eq!(skip_spaces(b"x  ", 1), 3);
    assert_eq!(skip_spaces(b"x", 1), 1);
    assert_eq!(skip_digits(b"a123b", 1), 4);
    assert_eq!(skip_digits(b"a123b", 0), 0);
    assert!(tag_no_case_at(b"xSeLeCt", 1, b"select"));
    assert!(!tag_no_case_at(b"xSeLeC", 1, b"select"));
    assert!(!tag_no_case_at(b"select", 0, b"selects"));
    assert_eq!(keyword(b" WHERE  a", 0, b"where"), Ok(8));
    assert_eq!(keyword(b" WHEREa", 0, b"where"), Err(ParseError::MultiSpace));
    assert_eq!(keyword(b"GROUP BY x", 0, b"group by"), Ok(9));
    assert_eq!(keyword(b"GROUP  BY x", 0, b"group by"), Err(ParseError::Tag));
    assert_eq!(unsigned_number(b"x42y", 1), Ok((42, 3)));
    assert_eq!(unsigned_number(b"x", 1), Err(ParseError::Digit));
}
