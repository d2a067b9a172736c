use charbuild::roll::{keep_lowest, parse_tokens, tokenize, DiceSource, ParseError, RollExpr, Token};

fn dice(faces: &[u8]) -> DiceSource {
    DiceSource::fixed(faces.to_vec())
}

#[test]
fn tokenize_keep_expression() {
    let t = tokenize("4d6kh3").unwrap();
    assert_eq!(t, vec![Token::Const(4), Token::D, Token::Const(6), Token::Kh, Token::Const(3)]);
}

#[test]
fn tokenize_skips_white_space() {
    let t = tokenize(" 1d20 +\t5 ").unwrap();
    assert_eq!(t, vec![Token::Const(1), Token::D, Token::Const(20), Token::Plus, Token::Const(5)]);
}

#[test]
fn tokenize_refuses_unknown_character() {
    assert_eq!(tokenize("1d6x").unwrap_err(), ParseError::Token);
}

#[test]
fn tokenize_refuses_k_without_h() {
    assert_eq!(tokenize("4d6k3").unwrap_err(), ParseError::Token);
    assert_eq!(tokenize("4d6k").unwrap_err(), ParseError::Token);
}

#[test]
fn tokenize_refuses_number_over_a_byte() {
    assert_eq!(tokenize("256").unwrap_err(), ParseError::Token);
    assert_eq!(tokenize("255").unwrap(), vec![Token::Const(255)]);
    assert_eq!(tokenize("007").unwrap(), vec![Token::Const(7)]);
}

#[test]
fn parse_constant() {
    assert!(matches!(RollExpr::parse("7").unwrap(), RollExpr::Const(7)));
}

#[test]
fn parse_keep_roll() {
    match RollExpr::parse("4d6kh3").unwrap() {
        RollExpr::Roll { count, die, kh } => {
            assert_eq!((count, die, kh), (4, 6, Some(3)));
        }
        other => panic!("unexpected {:?}", other),
    }
}

#[test]
fn parse_is_left_associative() {
    match RollExpr::parse("1d20+5-2").unwrap() {
        RollExpr::Sub(l, r) => {
            assert!(matches!(*r, RollExpr::Const(2)));
            match *l {
                RollExpr::Add(a, b) => {
                    assert!(matches!(*a, RollExpr::Roll { count: 1, die: 20, kh: None }));
                    assert!(matches!(*b, RollExpr::Const(5)));
                }
                other => panic!("unexpected {:?}", other),
            }
        }
        other => panic!("unexpected {:?}", other),
    }
}

#[test]
fn parse_refuses_bad_sequences() {
    for s in ["", "1d", "+1", "1 2", "1d6kh", "d6", "1+", "1--2"] {
        assert_eq!(RollExpr::parse(s).unwrap_err(), ParseError::Parse, "{}", s);
    }
    assert_eq!(RollExpr::parse("1d6?").unwrap_err(), ParseError::Token);
}

#[test]
fn parse_tokens_direct() {
    let e = parse_tokens(&vec![Token::Const(2), Token::Plus, Token::Const(3)]).unwrap();
    let mut src = dice(&[]);
    assert_eq!(e.roll(&mut src).value(), 5);
    assert_eq!(parse_tokens(&vec![Token::Plus]).unwrap_err(), ParseError::Parse);
}

#[test]
fn from_str_matches_parse() {
    let e: RollExpr = "2d4".parse().unwrap();
    assert!(matches!(e, RollExpr::Roll { count: 2, die: 4, kh: None }));
    assert_eq!("x".parse::<RollExpr>().unwrap_err(), ParseError::Token);
}

#[test]
fn keep_lowest_sorts_and_truncates() {
    let r = keep_lowest(vec![5, 2, 6, 1], Some(3));
    assert_eq!(r.dice(), &vec![1, 2, 5]);
    assert_eq!(r.value(), 8);
    let all = keep_lowest(vec![3, 1, 2], None);
    assert_eq!(all.dice(), &vec![1, 2, 3]);
    assert_eq!(all.value(), 6);
    let more = keep_lowest(vec![4, 4], Some(5));
    assert_eq!(more.dice(), &vec![4, 4]);
    assert_eq!(more.value(), 8);
}

#[test]
fn fixed_source_rolls_reproducibly() {
    let e = RollExpr::parse("4d6kh3+1").unwrap();
    let mut a = dice(&[6, 3, 5, 2]);
    let mut b = dice(&[6, 3, 5, 2]);
    let ra = e.roll(&mut a);
    let rb = e.roll(&mut b);
    assert_eq!(ra.value(), 11);
    assert_eq!(ra.dice(), &vec![2, 3, 5]);
    assert_eq!(ra.value(), rb.value());
    assert_eq!(ra.dice(), rb.dice());
}

#[test]
fn fixed_source_clamps_and_cycles() {
    let mut src = dice(&[9, 0]);
    assert_eq!(src.next_face(6), 6);
    assert_eq!(src.next_face(6), 1);
    assert_eq!(src.next_face(4), 4);
    let mut empty = dice(&[]);
    assert_eq!(empty.next_face(20), 1);
}

#[test]
fn subtraction_concatenates_dice() {
    let e = RollExpr::parse("2d6-1d4").unwrap();
    let mut src = dice(&[4, 2, 3]);
    let r = e.roll(&mut src);
    assert_eq!(r.dice(), &vec![2, 4, 3]);
    assert_eq!(r.value(), 3);
}

#[test]
fn random_source_stays_in_range() {
    let e = RollExpr::parse("10d6").unwrap();
    let mut src = DiceSource::random();
    let r = e.roll(&mut src);
    assert_eq!(r.dice().len(), 10);
    assert!(r.dice().iter().all(|d| (1..=6).contains(d)));
    assert!(r.dice().windows(2).all(|w| w[0] <= w[1]));
    assert!((10..=60).contains(&r.value()));
}

#[test]
fn can_roll_checks_sides_and_size() {
    assert!(!RollExpr::parse("1d0").unwrap().can_roll());
    assert!(RollExpr::parse("0d0").unwrap().can_roll());
    assert!(RollExpr::parse("255d255+255d255").unwrap().can_roll());
}

#[test]
fn parse_error_describes_itself() {
    assert_eq!(ParseError::Parse.describe(), "Parse");
    assert_eq!(ParseError::Token.describe(), "Token");
}

#[test]
fn from_str_errors_by_kind() {
    for s in ["1x", "1k2"] {
        assert_eq!(s.parse::<RollExpr>().unwrap_err(), ParseError::Token, "{}", s);
    }
    for s in ["d6", "", "1+", "1d", "3kh2"] {
        assert_eq!(s.parse::<RollExpr>().unwrap_err(), ParseError::Parse, "{}", s);
    }
    match "1+2-3".parse::<RollExpr>().unwrap() {
        RollExpr::Sub(l, r) => {
            assert!(matches!(*r, RollExpr::Const(3)));
            assert!(matches!(*l, RollExpr::Add(_, _)));
        }
        other => panic!("unexpected {:?}", other),
    }
}
