//! Birth and survival rules in the notation `B<digits>/S<digits>`.

use vstd::prelude::*;
use crate::text::{chars_of, digit_char};

verus! {

/// A life-like rule: for each number of live neighbours from 0 to 8,
/// whether a cell is born, and whether a live cell survives.
#[derive(Clone, Copy, Debug, PartialEq, Eq)]
pub struct AutomataRule {
    pub b: [bool; 9],
    pub s: [bool; 9],
}

/// Why a rule text was refused.
#[derive(Clone, Copy, Debug, PartialEq, Eq, Structural)]
pub enum RuleError {
    /// The text is not two tokens with one `/` between them.
    Tokens,
    /// The first token does not start with `B`, or the second not with `S`.
    Prefix,
    /// Behind a prefix stands something else than a digit from 0 to 8.
    Digit,
}

/// `s` has its one and only `/` at position `k`.
pub open spec fn splits_at(s: Seq<char>, k: int) -> bool {
    &&& 0 <= k < s.len()
    &&& s[k] == '/'
    &&& forall|j: int| 0 <= j < s.len() && j != k ==> s[j] != '/'
}

/// The token starts with `prefix`.
pub open spec fn has_prefix(token: Seq<char>, prefix: char) -> bool {
    token.len() > 0 && token[0] == prefix
}

/// Behind its prefix the token holds digits from 0 to 8 only.
pub open spec fn has_counts_only(token: Seq<char>) -> bool {
    forall|i: int| 1 <= i < token.len() ==> '0' <= #[trigger] token[i] <= '8'
}

/// The digit `n` stands somewhere behind the prefix of the token.
pub open spec fn names_count(token: Seq<char>, n: int) -> bool {
    exists|i: int| 1 <= i < token.len() && #[trigger] token[i] == digit_char(n as nat)
}

/// For each number from 0 to 8, whether the token names it.
pub open spec fn counts_of(token: Seq<char>) -> Seq<bool> {
    Seq::new(9, |n: int| names_count(token, n))
}

/// What parsing the rule text `s` gives: the births and the survivals, or
/// the reason for which `s` is refused.
pub open spec fn rule_outcome(s: Seq<char>) -> Result<(Seq<bool>, Seq<bool>), RuleError> {
    if !exists|k: int| splits_at(s, k) {
        Err(RuleError::Tokens)
    } else {
        let k = choose|k: int| splits_at(s, k);
        let birth = s.subrange(0, k);
        let survival = s.subrange(k + 1, s.len() as int);
        if !has_prefix(birth, 'B') || !has_prefix(survival, 'S') {
            Err(RuleError::Prefix)
        } else if !has_counts_only(birth) || !has_counts_only(survival) {
            Err(RuleError::Digit)
        } else {
            Ok((counts_of(birth), counts_of(survival)))
        }
    }
}

/// Reads the digits behind the prefix of the token that stands in `text`
/// from `start` up to `end`.
fn read_counts(text: &[char], start: usize, end: usize) -> (r: Option<[bool; 9]>)
    requires
        start < end <= text@.len(),
    ensures
        match r {
            Some(flags) => has_counts_only(text@.subrange(start as int, end as int)) && flags@
                == counts_of(text@.subrange(start as int, end as int)),
            None => !has_counts_only(text@.subrange(start as int, end as int)),
        },
{
    let ghost token = text@.subrange(start as int, end as int);
    let mut flags: [bool; 9] = [false; 9];
    let mut i: usize = start + 1;
    while i < end
        invariant
            start < i <= end,
            end <= text@.len(),
            token == text@.subrange(start as int, end as int),
            forall|j: int| 1 <= j < i - start ==> '0' <= #[trigger] token[j] <= '8',
            forall|n: int|
                0 <= n < 9 ==> (#[trigger] flags@[n] <==> exists|j: int|
                    1 <= j < i - start && #[trigger] token[j] == digit_char(n as nat)),
        decreases end - i,
    {
        let c = text[i];
        assert(c == token[i - start]);
        if !('0' <= c && c <= '8') {
            return None;
        }
        let n: usize = (c as u32 - '0' as u32) as usize;
        assert(c == digit_char(n as nat));
        let ghost before = flags@;
        flags[n] = true;
        proof {
            assert forall|m: int| 0 <= m < 9 implies (#[trigger] flags@[m] <==> exists|j: int|
                1 <= j < i + 1 - start && #[trigger] token[j] == digit_char(m as nat)) by {
                if m == n {
                    assert(token[i - start] == digit_char(m as nat));
                } else {
                    assert(flags@[m] == before[m]);
                    assert(token[i - start] != digit_char(m as nat));
                }
            }
        }
        i += 1;
    }
    assert(flags@ =~= counts_of(token));
    Some(flags)
}

impl AutomataRule {
    /// The outcome of the rule for a cell that is `alive` or not and has
    /// `neighbours` live neighbours: it lives on if it is alive and the
    /// survivals hold the number, and it is alive in any case if the births
    /// hold it.
    pub open spec fn apply_spec(&self, alive: bool, neighbours: int) -> bool {
        (self.s@[neighbours] && alive) || self.b@[neighbours]
    }

    /// Conway's Game of Life, `B3/S23`.
    pub fn cgol() -> (rule: AutomataRule)
        ensures
            forall|n: int| 0 <= n < 9 ==> (#[trigger] rule.b@[n] <==> n == 3),
            forall|n: int| 0 <= n < 9 ==> (#[trigger] rule.s@[n] <==> n == 2 || n == 3),
    {
        AutomataRule {
            b: [false, false, false, true, false, false, false, false, false],
            s: [false, false, true, true, false, false, false, false, false],
        }
    }

    /// Whether a cell is alive in the next generation.
    pub fn apply(&self, alive: bool, neighbours: usize) -> (next: bool)
        requires
            neighbours <= 8,
        ensures
            next == self.apply_spec(alive, neighbours as int),
    {
        (self.s[neighbours] && alive) || self.b[neighbours]
    }

    /// Parses a rule text such as `B3/S23`.
    pub fn parse(txt: &str) -> (r: Result<AutomataRule, RuleError>)
        ensures
            match rule_outcome(txt@) {
                Ok((births, survivals)) => r.is_ok() && r.unwrap().b@ == births && r.unwrap().s@
                    == survivals,
                Err(e) => r == Err::<AutomataRule, RuleError>(e),
            },
    {
        let chars = chars_of(txt);
        let text = chars.as_slice();
        let mut slash: usize = 0;
        let mut slashes: usize = 0;
        let mut i: usize = 0;
        while i < text.len()
            invariant
                i <= text@.len(),
                slashes <= i,
                slashes == 0 ==> forall|j: int| 0 <= j < i ==> text@[j] != '/',
                slashes == 1 ==> slash < i && text@[slash as int] == '/' && forall|j: int|
                    0 <= j < i && j != slash ==> text@[j] != '/',
                slashes > 1 ==> exists|j: int, k: int|
                    0 <= j < k < i && text@[j] == '/' && text@[k] == '/',
            decreases text@.len() - i,
        {
            if text[i] == '/' {
                proof {
                    if slashes == 1 {
                        assert(0 <= slash < i && text@[slash as int] == '/' && text@[i as int]
                            == '/');
                    }
                }
                if slashes == 0 {
                    slash = i;
                }
                slashes += 1;
            }
            i += 1;
        }
        if slashes != 1 {
            proof {
                if exists|k: int| splits_at(text@, k) {
                    let k = choose|k: int| splits_at(text@, k);
                    if slashes > 1 {
                        let (j1, j2) = choose|j: int, k: int|
                            0 <= j < k < i && text@[j] == '/' && text@[k] == '/';
                        assert(j1 == k || j2 == k);
                    }
                }
            }
            return Err(RuleError::Tokens);
        }
        proof {
            assert(splits_at(text@, slash as int));
            let k = choose|k: int| splits_at(text@, k);
            assert(k == slash);
        }
        let ghost birth = text@.subrange(0, slash as int);
        let ghost survival = text@.subrange(slash + 1, text@.len() as int);
        if slash == 0 || text[0] != 'B' || text.len() - slash == 1 || text[slash + 1] != 'S' {
            proof {
                if slash > 0 {
                    assert(birth[0] == text@[0]);
                }
                if text@.len() - slash > 1 {
                    assert(survival[0] == text@[slash + 1]);
                }
            }
            return Err(RuleError::Prefix);
        }
        assert(birth[0] == text@[0]);
        assert(survival[0] == text@[slash + 1]);
        let b = read_counts(text, 0, slash);
        let s = read_counts(text, slash + 1, text.len());
        match (b, s) {
            (Some(b), Some(s)) => Ok(AutomataRule { b, s }),
            _ => Err(RuleError::Digit),
        }
    }
}

/// Under `B3/S23` a live cell with two or three live neighbours stays alive
/// and every other live cell dies; a dead cell with exactly three live
/// neighbours is born and every other dead cell stays dead.
pub proof fn lemma_cgol_is_life(rule: AutomataRule, alive: bool, neighbours: int)
    requires
        0 <= neighbours <= 8,
        forall|n: int| 0 <= n < 9 ==> (#[trigger] rule.b@[n] <==> n == 3),
        forall|n: int| 0 <= n < 9 ==> (#[trigger] rule.s@[n] <==> n == 2 || n == 3),
    ensures
        rule.apply_spec(alive, neighbours) == if alive {
            neighbours == 2 || neighbours == 3
        } else {
            neighbours == 3
        },
{
}

/// The text `B3/S23` denotes the rule with the one birth 3 and the two
/// survivals 2 and 3.
pub proof fn lemma_cgol_text()
    ensures
        rule_outcome("B3/S23"@).is_ok(),
        forall|n: int| 0 <= n < 9 ==> (#[trigger] rule_outcome("B3/S23"@).unwrap().0[n] <==> n == 3),
        forall|n: int|
            0 <= n < 9 ==> (#[trigger] rule_outcome("B3/S23"@).unwrap().1[n] <==> n == 2 || n == 3),
{
    reveal_strlit("B3/S23");
    let s = "B3/S23"@;
    assert(s.len() == 6);
    assert(splits_at(s, 2));
    let k = choose|k: int| splits_at(s, k);
    assert(k == 2);
    let birth = s.subrange(0, 2);
    let survival = s.subrange(3, 6);
    assert(birth.len() == 2 && birth[0] == 'B' && birth[1] == '3');
    assert(survival.len() == 3 && survival[0] == 'S' && survival[1] == '2' && survival[2] == '3');
    assert(has_counts_only(birth));
    assert(has_counts_only(survival));
    assert forall|n: int| 0 <= n < 9 implies (names_count(birth, n) <==> n == 3) by {
        if n == 3 {
            assert(birth[1] == digit_char(n as nat));
        }
    }
    assert forall|n: int| 0 <= n < 9 implies (names_count(survival, n) <==> n == 2 || n == 3) by {
        if n == 2 {
            assert(survival[1] == digit_char(n as nat));
        }
        if n == 3 {
            assert(survival[2] == digit_char(n as nat));
        }
    }
}

} // verus!
