use rdr::eval::Exp;
use rdr::eval::Keep;
use rdr::eval::Roll;
use rdr::parse::parse;
use rdr::rng::RandomRolls;

#[test]
fn numeric_literal() {
    let parsed = parse("42").unwrap();
    assert_eq!(Exp::Const(42), parsed);
}

#[test]
fn negative_number() {
    let parsed = parse("-432").unwrap();
    assert_eq!(Exp::Const(-432), parsed);
}

#[test]
fn one_plus_two_equals_three() {
    let parsed = parse("1 + 2").unwrap();
    assert_eq!(Exp::add(vec![Exp::Const(1), Exp::Const(2)]), parsed);
    assert_eq!(3, parsed.evaluate(&mut RandomRolls::new()).value());
}

#[test]
fn multi_add() {
    let parsed = parse("1 + 2 + 3").unwrap();
    assert_eq!(
        Exp::add(vec![Exp::Const(1), Exp::Const(2), Exp::Const(3)]),
        parsed
    );
    assert_eq!(6, parsed.evaluate(&mut RandomRolls::new()).value());
}

#[test]
fn paren() {
    let parsed = parse("0 + ((1) + 2) + 3").unwrap();
    assert_eq!(
        Exp::add(vec![
            Exp::Const(0),
            Exp::Const(1),
            Exp::Const(2),
            Exp::Const(3)
        ]),
        parsed
    );
}

#[test]
fn simple_multiplication() {
    let parsed = parse("2 * -3").unwrap();
    assert_eq!(Exp::mul(vec![Exp::Const(2), Exp::Const(-3)]), parsed);
    assert_eq!(-6, parsed.evaluate(&mut RandomRolls::new()).value());
}

#[test]
fn basic_operator_precedence() {
    let parsed = parse("4 + 2 * -3").unwrap();
    assert_eq!(
        Exp::add(vec![
            Exp::Const(4),
            Exp::mul(vec![Exp::Const(2), Exp::Const(-3)])
        ]),
        parsed
    );
    assert_eq!(-2, parsed.evaluate(&mut RandomRolls::new()).value());
}

#[test]
fn parens_override_operators() {
    let parsed = parse("(4 + 2) * -3").unwrap();
    assert_eq!(
        Exp::mul(vec![
            Exp::add(vec![Exp::Const(4), Exp::Const(2)]),
            Exp::Const(-3)
        ]),
        parsed
    );
    assert_eq!(-18, parsed.evaluate(&mut RandomRolls::new()).value());
}

#[test]
fn row_of_adds() {
    let parsed = parse("1 + 2 * 3 + 4 + 5").unwrap();
    assert_eq!(
        Exp::add(vec![
            Exp::Const(1),
            Exp::mul(vec![Exp::Const(2), Exp::Const(3)]),
            Exp::Const(4),
            Exp::Const(5)
        ]),
        parsed
    );
    assert_eq!(16, parsed.evaluate(&mut RandomRolls::new()).value());
}

#[test]
fn simple_subtraction() {
    let parsed = parse("1 - 2 * 3 - 4 - 5").unwrap();
    assert_eq!(
        Exp::sub(vec![
            Exp::Const(1),
            Exp::mul(vec![Exp::Const(2), Exp::Const(3)]),
            Exp::Const(4),
            Exp::Const(5)
        ]),
        parsed
    );
    assert_eq!(-14, parsed.evaluate(&mut RandomRolls::new()).value());
}

#[test]
fn all_math_operations() {
    let parsed = parse("1 + 2 * (3 - 4) - 5").unwrap();
    assert_eq!(
        Exp::sub(vec![
            Exp::add(vec![
                Exp::Const(1),
                Exp::mul(vec![
                    Exp::Const(2),
                    Exp::sub(vec![Exp::Const(3), Exp::Const(4)])
                ])
            ]),
            Exp::Const(5)
        ]),
        parsed
    );
    assert_eq!(-6, parsed.evaluate(&mut RandomRolls::new()).value());
}

#[test]
fn double_negatives() {
    let parsed = parse("1 - -2").unwrap();
    assert_eq!(Exp::sub(vec![Exp::Const(1), Exp::Const(-2)]), parsed);
    assert_eq!(3, parsed.evaluate(&mut RandomRolls::new()).value());
}

#[test]
fn basic_die_roll() {
    let parsed = parse("d6").unwrap();
    // expands to 1d6, which looks dumb but is more syntactically complete
    assert_eq!(
        Exp::roll(Roll::simple(Exp::Const(1), Exp::Const(6))),
        parsed
    );
}

#[test]
fn multiple_dice_rolls() {
    let parsed = parse("3d8").unwrap();
    assert_eq!(
        Exp::roll(Roll::simple(Exp::Const(3), Exp::Const(8))),
        parsed
    );
}

#[test]
fn recursive_dice_expression() {
    let parsed = parse("(d4)d(3d6)").unwrap();
    assert_eq!(
        Exp::roll(Roll {
            dice: Exp::roll(Roll::simple(Exp::Const(1), Exp::Const(4))),
            sides: Exp::roll(Roll::simple(Exp::Const(3), Exp::Const(6))),
            keep: Keep::All,
        }),
        parsed
    );
}

#[test]
fn basic_keep() {
    let parsed = parse("2d20k1").unwrap();
    assert_eq!(
        Exp::roll(Roll::keep_highest(
            Exp::Const(2),
            Exp::Const(20),
            Exp::Const(1)
        )),
        parsed
    );
}

#[test]
fn keep_highest() {
    let parsed = parse("2d20kh1").unwrap();
    assert_eq!(
        Exp::roll(Roll::keep_highest(
            Exp::Const(2),
            Exp::Const(20),
            Exp::Const(1)
        )),
        parsed
    );
}

#[test]
fn tabs_and_newlines_are_whitespace() {
    let parsed = parse("1\t+\n2").unwrap();
    assert_eq!(Exp::add(vec![Exp::Const(1), Exp::Const(2)]), parsed);
}

#[test]
fn keep_lowest() {
    let parsed = parse("1 + 1 + 2d20kl1 * 2 - 1 - 1").unwrap();
    println!("{parsed:#?}");
}
