//! Display-name generation: an adjective and a noun drawn at random
//! from caller-supplied word lists.
use vstd::prelude::*;

use crate::random::random_below;

verus! {

/// The naming strategy: `"adjective-noun"`, or the same with a random
/// four-digit number appended.
pub enum Name {
    Plain,
    Numbered,
}

/// Draws names from two word lists.
pub struct Generator {
    pub adjectives: Vec<String>,
    pub nouns: Vec<String>,
    pub naming: Name,
}

/// Relies on String::push_str: appends the slice's characters to the
/// string.
#[verifier::external_body]
fn append_str(s: &mut String, t: &str)
    ensures
        final(s)@ == old(s)@ + t@,
{
    s.push_str(t)
}

/// The character of one decimal digit.
pub open spec fn digit_char(d: int) -> char {
    if d == 0 {
        '0'
    } else if d == 1 {
        '1'
    } else if d == 2 {
        '2'
    } else if d == 3 {
        '3'
    } else if d == 4 {
        '4'
    } else if d == 5 {
        '5'
    } else if d == 6 {
        '6'
    } else if d == 7 {
        '7'
    } else if d == 8 {
        '8'
    } else {
        '9'
    }
}

/// The name drawn for a generator: some adjective, a dash, some noun,
/// and in the numbered strategy another dash and a four-digit number
/// between 0001 and 9999.
pub open spec fn is_drawn_name(g: Generator, s: Seq<char>) -> bool {
    exists|i: int, j: int|
        #![trigger g.adjectives@[i], g.nouns@[j]]
        {
            &&& 0 <= i < g.adjectives@.len()
            &&& 0 <= j < g.nouns@.len()
            &&& match g.naming {
                Name::Plain => s == g.adjectives@[i]@ + seq!['-'] + g.nouns@[j]@,
                Name::Numbered => exists|n: int|
                    1 <= n <= 9999 && s == g.adjectives@[i]@ + seq!['-'] + g.nouns@[j]@ + seq![
                        '-',
                        #[trigger] digit_char(n / 1000),
                        digit_char((n / 100) % 10),
                        digit_char((n / 10) % 10),
                        digit_char(n % 10),
                    ],
            }
        }
}

/// Appends one decimal digit.
fn append_digit(s: &mut String, d: usize)
    requires
        d < 10,
    ensures
        final(s)@ == old(s)@ + seq![digit_char(d as int)],
{
    match d {
        0 => append_str(s, "0"),
        1 => append_str(s, "1"),
        2 => append_str(s, "2"),
        3 => append_str(s, "3"),
        4 => append_str(s, "4"),
        5 => append_str(s, "5"),
        6 => append_str(s, "6"),
        7 => append_str(s, "7"),
        8 => append_str(s, "8"),
        _ => append_str(s, "9"),
    }
    proof {
        reveal_strlit("0");
        reveal_strlit("1");
        reveal_strlit("2");
        reveal_strlit("3");
        reveal_strlit("4");
        reveal_strlit("5");
        reveal_strlit("6");
        reveal_strlit("7");
        reveal_strlit("8");
        reveal_strlit("9");
        assert(final(s)@ =~= old(s)@ + seq![digit_char(d as int)]);
    }
}

impl Generator {
    pub fn new(adjectives: Vec<String>, nouns: Vec<String>, naming: Name) -> (g: Generator)
        ensures
            g.adjectives == adjectives,
            g.nouns == nouns,
            g.naming == naming,
    {
        Generator { adjectives, nouns, naming }
    }

    /// Draws one name: some adjective, a dash and some noun from the
    /// lists (with four digits appended under the numbered strategy).
    /// Returns a name exactly when both word lists are non-empty;
    /// which words are drawn is up to chance.
    pub fn next(&mut self) -> (r: Option<String>)
        ensures
            *final(self) == *old(self),
            r is Some <==> (old(self).adjectives@.len() > 0 && old(self).nouns@.len() > 0),
            r matches Some(name) ==> is_drawn_name(*old(self), name@),
    {
        if self.adjectives.len() == 0 || self.nouns.len() == 0 {
            return None;
        }
        let ai = random_below(self.adjectives.len());
        let ni = random_below(self.nouns.len());
        let mut s = self.adjectives[ai].clone();
        append_str(&mut s, "-");
        proof {
            reveal_strlit("-");
            assert(s@ =~= self.adjectives@[ai as int]@ + seq!['-']);
        }
        append_str(&mut s, self.nouns[ni].as_str());
        match self.naming {
            Name::Plain => {
                proof {
                    assert(s@ =~= self.adjectives@[ai as int]@ + seq!['-']
                        + self.nouns@[ni as int]@);
                    assert(is_drawn_name(*self, s@));
                }
            },
            Name::Numbered => {
                let num = random_below(9999) + 1;
                append_str(&mut s, "-");
                append_digit(&mut s, num / 1000);
                append_digit(&mut s, (num / 100) % 10);
                append_digit(&mut s, (num / 10) % 10);
                append_digit(&mut s, num % 10);
                proof {
                    reveal_strlit("-");
                    assert(s@ =~= self.adjectives@[ai as int]@ + seq!['-']
                        + self.nouns@[ni as int]@ + seq![
                        '-',
                        digit_char(num as int / 1000),
                        digit_char((num as int / 100) % 10),
                        digit_char((num as int / 10) % 10),
                        digit_char(num as int % 10),
                    ]);
                    assert(is_drawn_name(*self, s@));
                }
            },
        }
        Some(s)
    }
}

} // verus!
