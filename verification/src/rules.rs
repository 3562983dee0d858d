//! The moves of an octal game, read from its digit string.
use vstd::prelude::*;
use vstd::string::StrSliceExecFns;

verus! {

/// What a player may leave behind after taking `i` tokens from a heap, where
/// the rule stands at index `i` of the game's rules.
#[derive(Copy, Clone, Debug, PartialEq, Eq, Structural)]
pub struct Rule {
    /// The whole heap may be taken, when it holds exactly `i` tokens.
    pub all: bool,
    /// One non-empty heap may be left.
    pub some: bool,
    /// Two non-empty heaps may be left.
    pub divide: bool,
}

/// Why a digit string is no game.
#[derive(Copy, Clone, Debug, PartialEq, Eq, Structural)]
pub enum RulesError {
    /// The character at this index is neither `.` nor a digit from 0 to 7.
    InvalidDigit(usize),
}

/// `c` is a digit from 0 to 7.
pub open spec fn is_octal_digit(c: char) -> bool {
    '0' <= c <= '7'
}

/// `c` may stand in a game's digit string.
pub open spec fn is_rule_char(c: char) -> bool {
    c == '.' || is_octal_digit(c)
}

/// The rule that the digit of value `d` encodes: bit 0 allows taking the whole
/// heap, bit 1 leaving one heap, bit 2 leaving two.
pub open spec fn rule_of_digit(d: int) -> Rule {
    Rule { all: d % 2 == 1, some: (d / 2) % 2 == 1, divide: (d / 4) % 2 == 1 }
}

/// The rule that the digit character `c` encodes.
pub open spec fn rule_of_char(c: char) -> Rule {
    rule_of_digit(c as int - '0' as int)
}

/// The rules that the characters `s` encode: one for each digit, in order; the
/// separators are passed over.
pub open spec fn parsed_rules(s: Seq<char>) -> Seq<Rule>
    decreases s.len(),
{
    if s.len() == 0 {
        Seq::empty()
    } else if s.last() == '.' {
        parsed_rules(s.drop_last())
    } else {
        parsed_rules(s.drop_last()).push(rule_of_char(s.last()))
    }
}

/// There is one rule for each character that is no separator.
pub proof fn lemma_parsed_rules_len(s: Seq<char>)
    ensures
        parsed_rules(s).len() <= s.len(),
    decreases s.len(),
{
    if s.len() > 0 {
        lemma_parsed_rules_len(s.drop_last());
    }
}

impl Rule {
    /// The rule of an octal digit, `None` for any other character.
    pub fn from_char(c: char) -> (r: Option<Rule>)
        ensures
            r == if is_octal_digit(c) {
                Some(rule_of_char(c))
            } else {
                None::<Rule>
            },
    {
        if '0' <= c && c <= '7' {
            let d: u32 = c as u32 - '0' as u32;
            Some(Rule { all: d % 2 == 1, some: (d / 2) % 2 == 1, divide: (d / 4) % 2 == 1 })
        } else {
            None
        }
    }
}

/// Reads a game such as `0.034`: the rule at index `i` of the result says what
/// may be left after taking `i` tokens.
///
/// Fails on the first character that is neither a separator nor a digit from 0
/// to 7.
pub fn rules_from_str(game: &str) -> (r: Result<Vec<Rule>, RulesError>)
    ensures
        match r {
            Ok(rules) => {
                &&& forall|k: int| 0 <= k < game@.len() ==> is_rule_char(#[trigger] game@[k])
                &&& rules@ == parsed_rules(game@)
            },
            Err(RulesError::InvalidDigit(k)) => {
                &&& k < game@.len()
                &&& !is_rule_char(game@[k as int])
                &&& forall|j: int| 0 <= j < k ==> is_rule_char(#[trigger] game@[j])
            },
        },
{
    let n = game.unicode_len();
    let mut rules: Vec<Rule> = Vec::new();
    let mut i: usize = 0;
    while i < n
        invariant
            i <= n,
            n == game@.len(),
            forall|k: int| 0 <= k < i ==> is_rule_char(#[trigger] game@[k]),
            rules@ == parsed_rules(game@.take(i as int)),
        decreases n - i,
    {
        let c = game.get_char(i);
        assert(game@.take(i + 1).drop_last() =~= game@.take(i as int));
        if c != '.' {
            match Rule::from_char(c) {
                Some(rule) => {
                    rules.push(rule);
                },
                None => {
                    return Err(RulesError::InvalidDigit(i));
                },
            }
        }
        i = i + 1;
    }
    assert(game@.take(i as int) =~= game@);
    Ok(rules)
}

} // verus!
