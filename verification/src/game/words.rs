//! The text of a line: its words, and the numbers they spell.

use vstd::prelude::*;
use vstd::string::StrSliceExecFns;

verus! {

/// Whether a character is white space.
pub open spec fn is_space(c: char) -> bool {
    ||| 0x09 <= c as u32 <= 0x0D
    ||| c as u32 == 0x20
    ||| c as u32 == 0x85
    ||| c as u32 == 0xA0
    ||| c as u32 == 0x1680
    ||| 0x2000 <= c as u32 <= 0x200A
    ||| c as u32 == 0x2028
    ||| c as u32 == 0x2029
    ||| c as u32 == 0x202F
    ||| c as u32 == 0x205F
    ||| c as u32 == 0x3000
}

/// The words of a text: its longest stretches without white space, in
/// order.
pub open spec fn words(text: Seq<char>) -> Seq<Seq<char>>
    decreases text.len(),
{
    if text.len() == 0 {
        Seq::empty()
    } else if is_space(text.last()) {
        words(text.drop_last())
    } else if text.len() >= 2 && !is_space(text[text.len() - 2]) {
        words(text.drop_last()).drop_last().push(
            words(text.drop_last()).last().push(text.last()),
        )
    } else {
        words(text.drop_last()).push(seq![text.last()])
    }
}

/// Whether a character is one of the digits 0 to 9.
pub open spec fn is_digit(c: char) -> bool {
    0x30 <= c as u32 <= 0x39
}

/// The value of a digit.
pub open spec fn digit_value(c: char) -> nat {
    (c as u32 - 0x30) as nat
}

/// Every character is a digit.
pub open spec fn all_digits(text: Seq<char>) -> bool {
    forall|k: int| 0 <= k < text.len() ==> is_digit(#[trigger] text[k])
}

/// The number that digits spell in base ten.
pub open spec fn decimal(digits: Seq<char>) -> nat
    decreases digits.len(),
{
    if digits.len() == 0 {
        0
    } else {
        10 * decimal(digits.drop_last()) + digit_value(digits.last())
    }
}

/// The word without a plus sign in front.
pub open spec fn unsigned(word: Seq<char>) -> Seq<char> {
    if word.len() > 0 && word[0] == '+' {
        word.skip(1)
    } else {
        word
    }
}

/// The number that a word spells: digits, at least one, with or without a
/// plus sign in front, that spell a machine integer.
pub open spec fn number(word: Seq<char>) -> Option<usize> {
    if unsigned(word).len() > 0 && all_digits(unsigned(word)) && decimal(unsigned(word))
        <= usize::MAX {
        Some(decimal(unsigned(word)) as usize)
    } else {
        None
    }
}

/// The words as sequences of characters.
pub open spec fn texts_of(words: Seq<Vec<char>>) -> Seq<Seq<char>> {
    words.map_values(|word: Vec<char>| word@)
}

/// More digits spell no smaller number.
pub proof fn lemma_decimal_grows(digits: Seq<char>, k: int)
    requires
        0 <= k <= digits.len(),
    ensures
        decimal(digits.take(k)) <= decimal(digits),
    decreases digits.len() - k,
{
    if k == digits.len() {
        assert(digits.take(k) =~= digits);
    } else {
        assert(digits.take(k + 1).drop_last() =~= digits.take(k));
        lemma_decimal_grows(digits, k + 1);
    }
}

/// Whether a character is white space.
pub fn is_whitespace(c: char) -> (space: bool)
    ensures
        space == is_space(c),
{
    let code: u32 = c as u32;
    (0x09 <= code && code <= 0x0D) || code == 0x20 || code == 0x85 || code == 0xA0 || code
        == 0x1680 || (0x2000 <= code && code <= 0x200A) || code == 0x2028 || code == 0x2029
        || code == 0x202F || code == 0x205F || code == 0x3000
}

/// The words of a line.
pub fn split_words(line: &str) -> (found: Vec<Vec<char>>)
    ensures
        texts_of(found@) == words(line@),
{
    let length: usize = line.unicode_len();
    let mut found: Vec<Vec<char>> = Vec::new();
    let mut word: Vec<char> = Vec::new();
    let mut i: usize = 0;
    proof {
        assert(line@.take(0) =~= Seq::<char>::empty());
        assert(texts_of(found@) =~= Seq::<Seq<char>>::empty());
    }
    while i < length
        invariant
            i <= length,
            length == line@.len(),
            word@.len() > 0 <==> i > 0 && !is_space(line@[i - 1]),
            words(line@.take(i as int)) == if word@.len() > 0 {
                texts_of(found@).push(word@)
            } else {
                texts_of(found@)
            },
        decreases length - i,
    {
        let c: char = line.get_char(i);
        let ghost before = line@.take(i as int);
        let ghost after = line@.take(i + 1);
        let ghost done = texts_of(found@);
        let ghost open = word@;
        proof {
            assert(after.drop_last() =~= before);
            assert(after.last() == c);
            if i > 0 {
                assert(after[after.len() - 2] == line@[i - 1]);
            }
        }
        if is_whitespace(c) {
            if word.len() > 0 {
                found.push(word);
                word = Vec::new();
                proof {
                    assert(texts_of(found@) =~= done.push(open));
                }
            }
        } else {
            word.push(c);
            proof {
                if open.len() > 0 {
                    assert(done.push(open).drop_last() =~= done);
                    assert(done.push(open).last() == open);
                } else {
                    assert(word@ =~= seq![c]);
                }
            }
        }
        i += 1;
    }
    proof {
        assert(line@.take(i as int) =~= line@);
    }
    if word.len() > 0 {
        let ghost done = texts_of(found@);
        let ghost open = word@;
        found.push(word);
        proof {
            assert(texts_of(found@) =~= done.push(open));
        }
    }
    found
}

/// The number that a word spells, if it spells one.
pub fn parse_number(word: &Vec<char>) -> (parsed: Option<usize>)
    ensures
        parsed == number(word@),
{
    let length: usize = word.len();
    let start: usize = if length > 0 && word[0] == '+' {
        1
    } else {
        0
    };
    let ghost digits = unsigned(word@);
    proof {
        assert(digits =~= word@.skip(start as int));
        assert(digits.take(0) =~= Seq::<char>::empty());
    }
    if start == length {
        return None;
    }
    let mut value: usize = 0;
    let mut i: usize = start;
    while i < length
        invariant
            start <= i <= length,
            length == word@.len(),
            digits == unsigned(word@),
            digits == word@.skip(start as int),
            all_digits(digits.take(i - start)),
            value == decimal(digits.take(i - start)),
        decreases length - i,
    {
        let c: char = word[i];
        let code: u32 = c as u32;
        let ghost seen = digits.take(i - start);
        let ghost next = digits.take(i - start + 1);
        proof {
            assert(next.drop_last() =~= seen);
            assert(next.last() == c);
            lemma_decimal_grows(digits, i - start + 1);
        }
        if code < 0x30 || code > 0x39 {
            proof {
                assert(digits[i - start] == c);
                assert(!is_digit(digits[i - start]));
            }
            return None;
        }
        let digit: usize = (code - 0x30) as usize;
        let tenfold: usize = match value.checked_mul(10) {
            Some(tenfold) => tenfold,
            None => {
                return None;
            },
        };
        value = match tenfold.checked_add(digit) {
            Some(sum) => sum,
            None => {
                return None;
            },
        };
        proof {
            assert forall|k: int| 0 <= k < next.len() implies is_digit(#[trigger] next[k]) by {
                if k < seen.len() {
                    assert(seen[k] == next[k]);
                }
            }
        }
        i += 1;
    }
    proof {
        assert(digits.take(i - start) =~= digits);
    }
    Some(value)
}

} // verus!
