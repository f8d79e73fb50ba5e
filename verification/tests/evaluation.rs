use rdr::error::ParseError;
use rdr::eval::Exp;
use rdr::eval::Keep;
use rdr::eval::Kept;
use rdr::eval::KeptRule;
use rdr::eval::Roll;
use rdr::eval::Rolled;
use rdr::eval::Value;
use rdr::parse::parse;
use rdr::rng::FixedRolls;
use rdr::rng::RandomRolls;

#[test]
fn expression_literal() {
    let mut rng = FixedRolls::new(vec![]);
    assert_eq!(Value::Const(5), Exp::Const(5).evaluate(&mut rng))
}

#[test]
fn dice_roll_const_params() {
    let mut rng = FixedRolls::new(vec![3]);
    let roll = Roll {
        dice: Exp::Const(1),
        sides: Exp::Const(6),
        keep: Keep::All,
    };
    let expression = Exp::roll(roll);
    let expected = Value::Rolled(Rolled {
        dice: Box::new(Value::Const(1)),
        sides: Box::new(Value::Const(6)),
        kept: Box::new(Kept {
            keep: KeptRule::All,
            retained: Value::Const(1),
            lowest: vec![],
            highest: vec![3],
        }),
    });
    assert_eq!(expected, expression.evaluate(&mut rng))
}

#[test]
fn dice_roll_variable_sides() {
    let mut rng = FixedRolls::new(vec![2, 3, 4]);
    let roll = Roll {
        dice: Exp::roll(Roll {
            dice: Exp::Const(1),
            sides: Exp::Const(6),
            keep: Keep::All,
        }),
        sides: Exp::Const(6),
        keep: Keep::All,
    };
    let expression = Exp::roll(roll);
    let expected = Value::Rolled(Rolled {
        dice: Box::new(Value::Rolled(Rolled {
            dice: Box::new(Value::Const(1)),
            sides: Box::new(Value::Const(6)),
            kept: Box::new(Kept {
                keep: KeptRule::All,
                retained: Value::Const(1),
                lowest: vec![],
                highest: vec![2],
            }),
        })),
        sides: Box::new(Value::Const(6)),
        kept: Box::new(Kept {
            keep: KeptRule::All,
            retained: Value::Const(2),
            lowest: vec![],
            highest: vec![3, 4],
        }),
    });
    assert_eq!(expected, expression.evaluate(&mut rng))
}

#[test]
fn one_plus_one() {
    let exp = Exp::add(vec![Exp::Const(1), Exp::Const(1)]);
    assert_eq!(2, exp.evaluate(&mut FixedRolls::new(vec![])).value())
}

#[test]
fn parsed_roll_replays_fixed_draws() {
    let parsed = parse("1d6").unwrap();
    let value = parsed.evaluate(&mut FixedRolls::new(vec![3]));
    match &value {
        Value::Rolled(rolled) => {
            assert_eq!(vec![3], rolled.kept.highest);
            assert_eq!(Vec::<i32>::new(), rolled.kept.lowest);
        }
        other => panic!("expected a rolled value, got {other:?}"),
    }
    assert_eq!(3, value.value());
}

#[test]
fn keep_highest_takes_top_of_sorted_draws() {
    let parsed = parse("3d6k2").unwrap();
    let value = parsed.evaluate(&mut FixedRolls::new(vec![2, 3, 4]));
    match &value {
        Value::Rolled(rolled) => {
            assert_eq!(vec![2], rolled.kept.lowest);
            assert_eq!(vec![3, 4], rolled.kept.highest);
            assert_eq!(Value::Const(2), rolled.kept.retained);
        }
        other => panic!("expected a rolled value, got {other:?}"),
    }
    assert_eq!(7, value.value());
}

#[test]
fn keep_lowest_takes_bottom_of_sorted_draws() {
    let parsed = parse("3d6kl2").unwrap();
    let value = parsed.evaluate(&mut FixedRolls::new(vec![4, 2, 3]));
    match &value {
        Value::Rolled(rolled) => {
            assert_eq!(vec![2, 3], rolled.kept.lowest);
            assert_eq!(vec![4], rolled.kept.highest);
        }
        other => panic!("expected a rolled value, got {other:?}"),
    }
    assert_eq!(5, value.value());
}

#[test]
fn zero_sided_dice_roll_zeros() {
    let parsed = parse("5d0").unwrap();
    let value = parsed.evaluate(&mut FixedRolls::new(vec![7, 8, 9]));
    match &value {
        Value::Rolled(rolled) => {
            assert_eq!(vec![0, 0, 0, 0, 0], rolled.kept.highest);
            assert_eq!(Vec::<i32>::new(), rolled.kept.lowest);
        }
        other => panic!("expected a rolled value, got {other:?}"),
    }
    assert_eq!(0, value.value());
}

#[test]
fn negative_dice_count_rolls_nothing() {
    let parsed = parse("(0 - 2)d6").unwrap();
    let value = parsed.evaluate(&mut FixedRolls::new(vec![5, 5, 5]));
    match &value {
        Value::Rolled(rolled) => {
            assert_eq!(Vec::<i32>::new(), rolled.kept.highest);
            assert_eq!(Vec::<i32>::new(), rolled.kept.lowest);
        }
        other => panic!("expected a rolled value, got {other:?}"),
    }
    assert_eq!(0, value.value());
}

#[test]
fn keep_count_clamps_to_dice_rolled() {
    let parsed = parse("2d6k9").unwrap();
    let value = parsed.evaluate(&mut FixedRolls::new(vec![1, 2]));
    match &value {
        Value::Rolled(rolled) => {
            assert_eq!(vec![1, 2], rolled.kept.highest);
            assert_eq!(Vec::<i32>::new(), rolled.kept.lowest);
            assert_eq!(2, rolled.kept.lowest.len() + rolled.kept.highest.len());
        }
        other => panic!("expected a rolled value, got {other:?}"),
    }
    assert_eq!(3, value.value());
}

#[test]
fn negative_keep_count_clamps_to_zero() {
    let parsed = parse("2d6kl-5").unwrap();
    let value = parsed.evaluate(&mut FixedRolls::new(vec![1, 2]));
    match &value {
        Value::Rolled(rolled) => {
            assert_eq!(Vec::<i32>::new(), rolled.kept.lowest);
            assert_eq!(vec![1, 2], rolled.kept.highest);
            assert_eq!(2, rolled.kept.lowest.len() + rolled.kept.highest.len());
        }
        other => panic!("expected a rolled value, got {other:?}"),
    }
    assert_eq!(0, value.value());
}

#[test]
fn zero_residue_wraps_to_maximum_face() {
    // A draw divisible by the side count shows the maximum face.
    let parsed = parse("1d6").unwrap();
    let value = parsed.evaluate(&mut FixedRolls::new(vec![12]));
    assert_eq!(6, value.value());
}

#[test]
fn sides_evaluate_before_dice() {
    // The side count draws from the source before the dice count does.
    let parsed = parse("(1d4)d(1d6)").unwrap();
    // First draw (sides): 3 % 6 = 3; second draw (dice): 1 % 4 = 1;
    // third draw (the one die): 2 % 3 = 2.
    let value = parsed.evaluate(&mut FixedRolls::new(vec![3, 1, 2]));
    assert_eq!(2, value.value());
}

#[test]
fn random_roll_stays_in_range() {
    let parsed = parse("1d6").unwrap();
    for _ in 0..64 {
        let value = parsed.evaluate(&mut RandomRolls::new()).value();
        assert!((1..=6).contains(&value));
    }
}

#[test]
fn empty_input_is_a_parse_error() {
    let err = parse("").unwrap_err();
    assert!(!err.is_lexical());
    assert_eq!(ParseError::Unreduced, err);
}

#[test]
fn dangling_operator_is_a_parse_error() {
    let err = parse("2 +").unwrap_err();
    assert!(!err.is_lexical());
    assert_eq!(ParseError::Unreduced, err);
}

#[test]
fn unknown_symbol_is_a_lex_error() {
    let err = parse("2 $ 3").unwrap_err();
    assert!(err.is_lexical());
    assert_eq!(
        ParseError::UnexpectedSymbol {
            symbol: '$',
            position: 2
        },
        err
    );
}

#[test]
fn dangling_keep_is_a_lex_error() {
    let err = parse("2d6k").unwrap_err();
    assert!(err.is_lexical());
    assert_eq!(ParseError::UnexpectedEnd, err);
}

#[test]
fn lone_operator_is_not_an_expression() {
    let err = parse("+").unwrap_err();
    assert!(!err.is_lexical());
    assert_eq!(ParseError::NotAnExpression, err);
}
