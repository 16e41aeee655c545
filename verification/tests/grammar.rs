use std::collections::HashMap;
use std::str::FromStr;

use itertools::Itertools;
use network_common::http::{Method, Request};
use nom::bytes::complete::{tag, take_until};
use nom::character::complete::multispace1;
use nom::multi::separated_list1;
use nom::IResult;

struct Parsed {
    method: Method,
    path: String,
    headers: HashMap<String, String>,
    body: String,
}

/// The request grammar written with nom's combinators: `None` for an input
/// that it does not read (an unknown method, a missing piece, or a header
/// line with ':' but no ": ").
fn nom_request(input: &str) -> IResult<&str, Option<Parsed>> {
    let (input, method) = take_until(" ")(input)?;
    let method = match Method::from_str(method) {
        Ok(m) => m,
        Err(_) => return Ok((input, None)),
    };
    let (input, _) = tag(" ")(input)?;
    let (input, line) = take_until("\r\n")(input)?;
    let (_, path) = take_until(" ")(line)?;
    let (input, block) = take_until("\r\n\r\n")(input)?;
    let (_, lines) = separated_list1(multispace1, take_until("\r\n"))(block)?;
    let mut headers = HashMap::new();
    for header in lines {
        if header.find(':').is_some() {
            let pair: Option<(&str, &str)> = header.split(": ").next_tuple();
            match pair {
                Some((key, value)) => {
                    headers.insert(key.to_string(), value.to_string());
                }
                None => return Ok((input, None)),
            }
        } else {
            headers.insert(header.to_string(), String::new());
        }
    }
    let body = if input.len() > 4 {
        let (rest, _) = tag("\r\n\r\n")(input)?;
        rest
    } else {
        input
    };
    Ok((input, Some(Parsed { method, path: path.to_string(), headers, body: body.to_string() })))
}

fn agree(text: &str) {
    let ours = Request::parse(text);
    let theirs = match nom_request(text) {
        Ok((_, parsed)) => parsed,
        Err(_) => None,
    };
    match (ours, theirs) {
        (None, None) => {}
        (Some(r), Some(p)) => {
            assert_eq!(r.method, p.method, "{:?}", text);
            assert_eq!(r.path, p.path, "{:?}", text);
            assert_eq!(r.body, p.body, "{:?}", text);
            assert_eq!(r.headers.len(), p.headers.len(), "{:?}", text);
            for (key, value) in &p.headers {
                assert_eq!(r.headers.get(key), Some(value), "{:?}", text);
            }
        }
        (a, b) => panic!("{:?}: parsed {} by one grammar, {} by the other", text, a.is_some(), b.is_some()),
    }
}

#[test]
fn parser_agrees_with_nom_grammar_on_examples() {
    let examples = [
        "GET / HTTP/1.1\r\nHost: a\r\nAccept: */*\r\n\r\n",
        "POST /compile HTTP/1.1\r\nHost: a\r\nContent-Type: application/json\r\nContent-Length: 5\r\n\r\n{\"id\":\"1\"}",
        "GET /add?1&2 HTTP/1.1\r\nHost: localhost\r\nUser-Agent: x\r\n\r\n",
        "GET /chat HTTP/1.1\r\nUpgrade: websocket\r\nSec-WebSocket-Key: abc==\r\nConnection: Upgrade\r\n\r\n",
        "GET  /double HTTP/1.1\r\nA: b\r\nC: d\r\n\r\n",
        "GET /x HTTP/1.1\r\n\tA: b\r\n  C: d\r\nE: f\r\n\r\nbody",
        "GET /x HTTP/1.1\r\nA:b\r\nC: d\r\n\r\n",
        "GET /x HTTP/1.1\r\nA: b: c\r\nC: d\r\n\r\n",
        "GET /x HTTP/1.1\r\nNoColon\r\nC: d\r\n\r\n",
        "GET /x HTTP/1.1\r\nA: 1\r\nA: 2\r\nC: d\r\n\r\n",
        "GET /ä HTTP/1.1\r\nK: ü\r\nX: y\r\n\r\nbödy",
        "FETCH / HTTP/1.1\r\nA: b\r\n\r\n",
        "GET / HTTP/1.1\r\n\r\n",
        "GET /\r\nA: b\r\n\r\n",
        "GET / HTTP/1.1",
        "GET",
        "",
        "DELETE /item/3 HTTP/1.1\r\nA: b\r\nB: c\r\n\r\n\r\n",
    ];
    for text in examples {
        agree(text);
    }
}

#[test]
fn parser_agrees_with_nom_grammar_on_token_strings() {
    let tokens = ["GET", "POST", " ", "/p", "\r\n", "\r\n\r\n", "a: b", ":", "x", "\t"];
    let mut count = 0;
    for n in 0..=4 {
        for combo in (0..n).map(|_| tokens.iter()).multi_cartesian_product() {
            let text: String = combo.into_iter().copied().collect();
            agree(&text);
            count += 1;
        }
    }
    assert!(count > 10000);
}

#[test]
fn parser_agrees_with_nom_grammar_on_header_blocks() {
    let tokens = ["\r\n", " ", "\t", "a: b", "c: d", "e", ":", ": ", "x"];
    for n in 0..=5 {
        for combo in (0..n).map(|_| tokens.iter()).multi_cartesian_product() {
            let block: String = combo.into_iter().copied().collect();
            agree(&format!("GET /p HTTP/1.1{}\r\n\r\nbody", block));
            agree(&format!("POST /q HTTP/1.1\r\n{}\r\n\r\n", block));
        }
    }
}
