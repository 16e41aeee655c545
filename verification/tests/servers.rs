use itertools::Itertools;
use network_common::calc::{calculate, calculator_response, parse_i32, CalcError};
use network_common::draw::{ClientQueues, DrawInstruction};
use network_common::http::Request;
use network_common::primes::{fits_trial_division, is_prime};
use network_common::routes::{route_compile_server, route_drawing_server, CompileServerAction, DrawingServerAction};

fn chars(s: &str) -> Vec<char> {
    s.chars().collect()
}

#[test]
fn parse_i32_follows_from_str() {
    for text in ["0", "42", "-42", "+7", "-0", "2147483647", "-2147483648", "2147483648", "", "-", "+", "1a", " 1", "00012"] {
        assert_eq!(parse_i32(&chars(text)), text.parse::<i32>().ok(), "{}", text);
    }
}

#[test]
fn calculate_sums_and_differences() {
    assert_eq!(calculate("/add?1&2&3"), Ok(Some(6)));
    assert_eq!(calculate("/sub?10&3"), Ok(Some(7)));
    assert_eq!(calculate("/sub?10&3&100"), Ok(Some(7)));
    assert_eq!(calculate("/index.html"), Ok(None));
}

#[test]
fn calculate_errors() {
    assert_eq!(calculate("/add"), Err(CalcError::ShortPath));
    assert_eq!(calculate("/add?"), Err(CalcError::NotANumber(String::new())));
    assert_eq!(calculate("/add?1&x&y"), Err(CalcError::NotANumber("x".to_string())));
    assert_eq!(calculate("/add?2147483647&1"), Err(CalcError::Overflow));
    assert_eq!(calculate("/sub?5"), Err(CalcError::MissingOperand));
    assert_eq!(calculate("/sub?x"), Err(CalcError::NotANumber("x".to_string())));
    assert_eq!(calculate("/sub?-2147483648&1"), Err(CalcError::Overflow));
    assert_eq!(calculate("/addé1"), Err(CalcError::ShortPath));
}

#[test]
fn calculator_page() {
    assert_eq!(
        calculator_response("<p>{{result}}</p>{{result}}", -12),
        "HTTP/1.1 200 OK\r\nContent-Type: text/html\r\n\r\n<p>-12</p>-12"
    );
    assert_eq!(calculator_response("{{res", 0), "HTTP/1.1 200 OK\r\nContent-Type: text/html\r\n\r\n{{res");
}

#[test]
fn prime_test() {
    assert!(is_prime(1));
    assert!(is_prime(2));
    assert!(is_prime(3));
    assert!(!is_prime(4));
    assert!(is_prime(97));
    assert!(!is_prime(91));
    assert!(is_prime(0));
    assert!(is_prime(-7));
    assert!(!is_prime(2147483646));
    let primes: Vec<i32> = (1..30).filter(|n| is_prime(*n)).collect();
    assert_eq!(primes, vec![1, 2, 3, 5, 7, 11, 13, 17, 19, 23, 29]);
}

#[test]
fn trial_division_fits_below_the_square_of_46340() {
    assert!(fits_trial_division(2147395599));
    assert!(fits_trial_division(-5));
    assert!(fits_trial_division(2147395600));
    assert!(fits_trial_division(2147483646));
    assert!(!fits_trial_division(2147483647));
    assert!(!is_prime(2147395600));
}

#[test]
fn broadcast_reaches_everyone_but_the_sender() {
    let mut queues = ClientQueues::new();
    queues.register(1);
    queues.register(2);
    queues.register(3);
    let line = DrawInstruction { x1: 0, y1: 1, x2: 2, y2: 3 };
    let other = DrawInstruction { x1: 4, y1: 5, x2: 6, y2: 7 };
    queues.broadcast(1, line);
    queues.broadcast(3, other);
    assert_eq!(queues.pop_pending(1), Some(other));
    assert_eq!(queues.pop_pending(1), None);
    assert_eq!(queues.pop_pending(2), Some(line));
    assert_eq!(queues.pop_pending(2), Some(other));
    assert_eq!(queues.pop_pending(2), None);
    assert_eq!(queues.pop_pending(3), Some(line));
    assert_eq!(queues.position(2), Some(1));
    assert_eq!(queues.position(9), None);
    queues.remove_client(2);
    assert_eq!(queues.position(2), None);
    assert_eq!(queues.position(3), Some(1));
    queues.broadcast(1, line);
    assert_eq!(queues.pop_pending(2), None);
    assert_eq!(queues.pop_pending(3), Some(line));
}

#[test]
fn compile_server_routes() {
    let upgrade = Request::parse("GET / HTTP/1.1\r\nUpgrade: websocket\r\nX: y\r\n\r\n").unwrap();
    assert_eq!(route_compile_server(&upgrade), CompileServerAction::OpenWebsocket);
    let other = Request::parse("GET / HTTP/1.1\r\nUpgrade: h2c\r\nX: y\r\n\r\n").unwrap();
    assert_eq!(route_compile_server(&other), CompileServerAction::OtherUpgrade);
    let compile = Request::parse("POST /compile HTTP/1.1\r\nA: b\r\nX: y\r\n\r\n{}").unwrap();
    assert_eq!(route_compile_server(&compile), CompileServerAction::Compile);
    let post = Request::parse("POST /x HTTP/1.1\r\nA: b\r\nX: y\r\n\r\n").unwrap();
    assert_eq!(route_compile_server(&post), CompileServerAction::OtherPath);
    let get = Request::parse("GET /x HTTP/1.1\r\nA: b\r\nX: y\r\n\r\n").unwrap();
    assert_eq!(route_compile_server(&get), CompileServerAction::Get);
    let put = Request::parse("PUT /x HTTP/1.1\r\nA: b\r\nX: y\r\n\r\n").unwrap();
    assert_eq!(route_compile_server(&put), CompileServerAction::OtherMethod);
}

#[test]
fn drawing_server_routes() {
    let upgrade = Request::parse("GET / HTTP/1.1\r\nUpgrade: websocket\r\nX: y\r\n\r\n").unwrap();
    assert_eq!(route_drawing_server(&upgrade), DrawingServerAction::OpenWebsocket);
    let other = Request::parse("GET / HTTP/1.1\r\nUpgrade: h2c\r\nX: y\r\n\r\n").unwrap();
    assert_eq!(route_drawing_server(&other), DrawingServerAction::OtherUpgrade);
    let plain = Request::parse("GET / HTTP/1.1\r\nA: b\r\nX: y\r\n\r\n").unwrap();
    assert_eq!(route_drawing_server(&plain), DrawingServerAction::Ignore);
}

/// The calculator's arithmetic written with `str::split_at`, `str::split`,
/// `str::parse` and checked arithmetic, each way it can fail named as in
/// `CalcError`.
fn std_calculate(path: &str) -> Result<Option<i32>, CalcError> {
    let is_add = path.starts_with("/add");
    if !is_add && !path.starts_with("/sub") {
        return Ok(None);
    }
    if !path.is_char_boundary(5) {
        return Err(CalcError::ShortPath);
    }
    let (_, params) = path.split_at(5);
    let parse = |val: &str| val.parse::<i32>().map_err(|_| CalcError::NotANumber(val.to_string()));
    if is_add {
        let mut acc: i32 = 0;
        for val in params.split('&') {
            acc = acc.checked_add(parse(val)?).ok_or(CalcError::Overflow)?;
        }
        Ok(Some(acc))
    } else {
        let mut pieces = params.split('&');
        let a = parse(pieces.next().unwrap_or(""))?;
        let b = match pieces.next() {
            Some(val) => parse(val)?,
            None => return Err(CalcError::MissingOperand),
        };
        a.checked_sub(b).map(Some).ok_or(CalcError::Overflow)
    }
}

#[test]
fn calculate_agrees_with_std_arithmetic() {
    let tokens = ["/add", "/sub", "?", "1", "-", "&", "x", "2147483647", "-2147483648", "é", "0", "+"];
    let mut count = 0;
    for n in 0..=5 {
        for combo in (0..n).map(|_| tokens.iter()).multi_cartesian_product() {
            let path: String = combo.into_iter().copied().collect();
            assert_eq!(calculate(&path), std_calculate(&path), "{:?}", path);
            count += 1;
        }
    }
    assert!(count > 100000);
}
