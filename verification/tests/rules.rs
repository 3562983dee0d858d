use octal_games::rules::{rules_from_str, Rule, RulesError};

#[test]
fn test_game_to_rules() {
    let rules = rules_from_str("0.034").unwrap();

    assert_eq!(
        rules,
        vec![
            Rule { all: false, some: false, divide: false },
            Rule { all: false, some: false, divide: false },
            Rule { all: true, some: true, divide: false },
            Rule { all: false, some: false, divide: true },
        ]
    );

    let rules = rules_from_str("0.012345670").unwrap();

    assert_eq!(
        rules,
        vec![
            Rule { all: false, some: false, divide: false },
            Rule { all: false, some: false, divide: false },
            Rule { all: true, some: false, divide: false },
            Rule { all: false, some: true, divide: false },
            Rule { all: true, some: true, divide: false },
            Rule { all: false, some: false, divide: true },
            Rule { all: true, some: false, divide: true },
            Rule { all: false, some: true, divide: true },
            Rule { all: true, some: true, divide: true },
            Rule { all: false, some: false, divide: false },
        ]
    );
}

#[test]
fn rules_reject_digits_above_seven() {
    assert_eq!(rules_from_str("0.08"), Err(RulesError::InvalidDigit(3)));
    assert_eq!(rules_from_str("0.9"), Err(RulesError::InvalidDigit(2)));
    assert_eq!(rules_from_str("0.x4"), Err(RulesError::InvalidDigit(2)));
}
