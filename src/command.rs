use vstd::prelude::*;
use crate::model::Command;

verus! {

/// ASCII whitespace: space, tab, line feed, carriage return.
pub open spec fn is_space(b: u8) -> bool {
    b == 32 || b == 9 || b == 10 || b == 13
}

/// The byte with ASCII upper-case letters made lower case.
pub open spec fn lower(b: u8) -> u8 {
    if 65 <= b <= 90 {
        (b + 32) as u8
    } else {
        b
    }
}

/// The bytes without leading whitespace.
pub open spec fn trim_front(s: Seq<u8>) -> Seq<u8>
    decreases s.len(),
{
    if s.len() > 0 && is_space(s[0]) {
        trim_front(s.drop_first())
    } else {
        s
    }
}

/// The bytes without trailing whitespace.
pub open spec fn trim_back(s: Seq<u8>) -> Seq<u8>
    decreases s.len(),
{
    if s.len() > 0 && is_space(s.last()) {
        trim_back(s.drop_last())
    } else {
        s
    }
}

/// The bytes without surrounding whitespace, in lower case.
pub open spec fn normalized(s: Seq<u8>) -> Seq<u8> {
    trim_back(trim_front(s)).map_values(|b: u8| lower(b))
}

/// The command a normalized word stands for: `q`, `h`/`c`/`d`/`s` (foundation slots 0 to 3),
/// `draw`, `waste`, or a digit 1 to 7 (tableau piles 0 to 6).
pub open spec fn command_of(w: Seq<u8>) -> Option<Command> {
    if w == seq![113u8] {
        Some(Command::Quit)
    } else if w == seq![104u8] {
        Some(Command::SendToFoundation(0))
    } else if w == seq![99u8] {
        Some(Command::SendToFoundation(1))
    } else if w == seq![100u8] {
        Some(Command::SendToFoundation(2))
    } else if w == seq![115u8] {
        Some(Command::SendToFoundation(3))
    } else if w == seq![100u8, 114u8, 97u8, 119u8] {
        Some(Command::DrawThree)
    } else if w == seq![119u8, 97u8, 115u8, 116u8, 101u8] {
        Some(Command::SelectWaste)
    } else if w.len() == 1 && 49 <= w[0] <= 55 {
        Some(Command::SelectTableau((w[0] - 49) as usize))
    } else {
        None
    }
}

fn is_space_byte(b: u8) -> (r: bool)
    ensures
        r == is_space(b),
{
    b == 32 || b == 9 || b == 10 || b == 13
}

fn lower_byte(b: u8) -> (r: u8)
    ensures
        r == lower(b),
{
    if 65 <= b && b <= 90 {
        b + 32
    } else {
        b
    }
}

/// Whether `s[lo..hi]`, in lower case, equals `word`.
fn word_is(s: &[u8], lo: usize, hi: usize, word: &[u8]) -> (r: bool)
    requires
        lo <= hi <= s@.len(),
    ensures
        r == (s@.subrange(lo as int, hi as int).map_values(|b: u8| lower(b)) == word@),
{
    let ghost w = s@.subrange(lo as int, hi as int).map_values(|b: u8| lower(b));
    if hi - lo != word.len() {
        return false;
    }
    let mut i: usize = 0;
    while i < word.len()
        invariant
            lo <= hi <= s@.len(),
            hi - lo == word@.len(),
            i <= word@.len(),
            w == s@.subrange(lo as int, hi as int).map_values(|b: u8| lower(b)),
            forall|k: int| 0 <= k < i ==> w[k] == word@[k],
        decreases word@.len() - i,
    {
        if lower_byte(s[lo + i]) != word[i] {
            assert(w[i as int] != word@[i as int]);
            return false;
        }
        i = i + 1;
    }
    assert(w =~= word@);
    true
}

/// Reads one command from a line of input; `None` when the line is no command.
pub fn parse_command(input: &[u8]) -> (r: Option<Command>)
    ensures
        r == command_of(normalized(input@)),
{
    let n = input.len();
    let mut lo: usize = 0;
    assert(input@.subrange(0, n as int) =~= input@);
    while lo < n && is_space_byte(input[lo])
        invariant
            lo <= n == input@.len(),
            trim_front(input@) == trim_front(input@.subrange(lo as int, n as int)),
        decreases n - lo,
    {
        assert(input@.subrange(lo as int, n as int).drop_first() =~= input@.subrange(lo + 1, n as int));
        lo = lo + 1;
    }
    assert(trim_front(input@) == input@.subrange(lo as int, n as int));
    let mut hi: usize = n;
    assert(input@.subrange(lo as int, n as int) =~= input@.subrange(lo as int, hi as int));
    while hi > lo && is_space_byte(input[hi - 1])
        invariant
            lo <= hi <= n == input@.len(),
            trim_back(trim_front(input@)) == trim_back(input@.subrange(lo as int, hi as int)),
        decreases hi,
    {
        assert(input@.subrange(lo as int, hi as int).drop_last() =~= input@.subrange(lo as int, hi - 1));
        hi = hi - 1;
    }
    assert(trim_back(trim_front(input@)) == input@.subrange(lo as int, hi as int));
    let ghost w = normalized(input@);
    assert(w == input@.subrange(lo as int, hi as int).map_values(|b: u8| lower(b)));
    let quit: &[u8] = &[113u8];
    assert(quit@ == seq![113u8]);
    let hearts: &[u8] = &[104u8];
    assert(hearts@ == seq![104u8]);
    let clubs: &[u8] = &[99u8];
    assert(clubs@ == seq![99u8]);
    let diamonds: &[u8] = &[100u8];
    assert(diamonds@ == seq![100u8]);
    let spades: &[u8] = &[115u8];
    assert(spades@ == seq![115u8]);
    let draw: &[u8] = &[100u8, 114u8, 97u8, 119u8];
    assert(draw@ == seq![100u8, 114u8, 97u8, 119u8]);
    let waste: &[u8] = &[119u8, 97u8, 115u8, 116u8, 101u8];
    assert(waste@ == seq![119u8, 97u8, 115u8, 116u8, 101u8]);
    if word_is(input, lo, hi, quit) {
        Some(Command::Quit)
    } else if word_is(input, lo, hi, hearts) {
        Some(Command::SendToFoundation(0))
    } else if word_is(input, lo, hi, clubs) {
        Some(Command::SendToFoundation(1))
    } else if word_is(input, lo, hi, diamonds) {
        Some(Command::SendToFoundation(2))
    } else if word_is(input, lo, hi, spades) {
        Some(Command::SendToFoundation(3))
    } else if word_is(input, lo, hi, draw) {
        Some(Command::DrawThree)
    } else if word_is(input, lo, hi, waste) {
        Some(Command::SelectWaste)
    } else if hi - lo == 1 && 49 <= lower_byte(input[lo]) && lower_byte(input[lo]) <= 55 {
        assert(w[0] == lower(input@[lo as int]));
        Some(Command::SelectTableau((lower_byte(input[lo]) - 49) as usize))
    } else {
        proof {
            assert(w.len() == hi - lo);
            if hi - lo == 1 {
                assert(w[0] == lower(input@[lo as int]));
            }
        }
        None
    }
}

} // verus!
