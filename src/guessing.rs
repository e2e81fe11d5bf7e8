//! The number guessing game: a secret drawn at random, and the verdict on
//! each guess.
use vstd::prelude::*;

verus! {

/// How a guess compares with the secret.
#[derive(Clone, Copy, Debug, PartialEq, Eq, Structural)]
pub enum Verdict {
    TooSmall,
    TooBig,
    Win,
}

/// The thread-local random number generator of `rand`, carried opaquely.
#[verifier::external_type_specification]
#[verifier::external_body]
pub struct ExThreadRng(rand::rngs::ThreadRng);

/// Relies on `rand::thread_rng`: it hands out the thread's generator.
pub assume_specification[ rand::thread_rng ]() -> rand::rngs::ThreadRng;

/// Relies on `rand::Rng::gen_range` over an inclusive range: the value lies
/// between both ends. It panics on an empty range, which `requires` leaves
/// out.
#[verifier::external_body]
fn draw_between(rng: &mut rand::rngs::ThreadRng, low: u32, high: u32) -> (r: u32)
    requires
        low <= high,
    ensures
        low <= r <= high,
{
    rand::Rng::gen_range(rng, low..=high)
}

/// A round of the game, holding its secret number.
pub struct Game {
    secret: u32,
}

impl Game {
    pub closed spec fn secret(&self) -> u32 {
        self.secret
    }

    /// A new round with a secret drawn from 1 to 100.
    pub fn new() -> (g: Game)
        ensures
            1 <= g.secret() <= 100,
    {
        let mut rng = rand::thread_rng();
        Game { secret: draw_between(&mut rng, 1, 100) }
    }

    /// A round with the given secret.
    pub fn with_secret(secret: u32) -> (g: Game)
        ensures
            g.secret() == secret,
    {
        Game { secret }
    }

    /// The verdict on `guess`.
    pub fn check(&self, guess: u32) -> (r: Verdict)
        ensures
            r == judge(guess, self.secret()),
    {
        if guess < self.secret {
            Verdict::TooSmall
        } else if guess > self.secret {
            Verdict::TooBig
        } else {
            Verdict::Win
        }
    }
}

pub open spec fn judge(guess: u32, secret: u32) -> Verdict {
    if guess < secret {
        Verdict::TooSmall
    } else if guess > secret {
        Verdict::TooBig
    } else {
        Verdict::Win
    }
}

/// Whitespace that surrounds a typed guess.
pub open spec fn is_blank(c: char) -> bool {
    c == ' ' || c == '\t' || c == '\n' || c == '\r' || c == '\x0b' || c == '\x0c'
}

/// The index of the first character from `i` on that is not blank.
pub open spec fn first_kept(s: Seq<char>, i: int) -> int
    decreases s.len() - i,
{
    if 0 <= i < s.len() && is_blank(s[i]) {
        first_kept(s, i + 1)
    } else {
        i
    }
}

/// One past the last character before `j`, and not before `lo`, that is
/// not blank.
pub open spec fn last_kept(s: Seq<char>, lo: int, j: int) -> int
    decreases j - lo,
{
    if lo < j && j <= s.len() && is_blank(s[j - 1]) {
        last_kept(s, lo, j - 1)
    } else {
        j
    }
}

/// The text without its surrounding blanks.
pub open spec fn trimmed(s: Seq<char>) -> Seq<char> {
    let lo = first_kept(s, 0);
    s.subrange(lo, last_kept(s, lo, s.len() as int))
}

pub open spec fn is_digit(c: char) -> bool {
    '0' <= c <= '9'
}

pub open spec fn all_digits(s: Seq<char>) -> bool {
    forall|k: int| 0 <= k < s.len() ==> is_digit(#[trigger] s[k])
}

/// The number that a string of decimal digits writes.
pub open spec fn decimal(s: Seq<char>) -> nat
    decreases s.len(),
{
    if s.len() == 0 {
        0
    } else {
        decimal(s.drop_last()) * 10 + (s.last() as nat - '0' as nat) as nat
    }
}

/// The digits of a guess: the trimmed text, without one leading `+`.
pub open spec fn guess_digits(s: Seq<char>) -> Seq<char> {
    let t = trimmed(s);
    if t.len() > 0 && t[0] == '+' {
        t.drop_first()
    } else {
        t
    }
}

/// What a typed line says: a number from 0 to `u32::MAX` written in decimal
/// digits, with blanks around it and an optional `+` before it.
pub open spec fn guess_of(s: Seq<char>) -> Option<u32> {
    let d = guess_digits(s);
    if d.len() > 0 && all_digits(d) && decimal(d) <= u32::MAX {
        Some(decimal(d) as u32)
    } else {
        None
    }
}

proof fn lemma_decimal_grows(s: Seq<char>, j: int)
    requires
        0 <= j <= s.len(),
        all_digits(s),
    ensures
        decimal(s.subrange(0, j)) <= decimal(s),
    decreases s.len() - j,
{
    if j < s.len() {
        lemma_decimal_grows(s, j + 1);
        let t = s.subrange(0, j + 1);
        assert(t.drop_last() =~= s.subrange(0, j));
        assert(is_digit(s[j]));
    } else {
        assert(s.subrange(0, j) =~= s);
    }
}

/// The guess a typed line holds, if it holds one.
pub fn parse_guess(line: &str) -> (r: Option<u32>)
    ensures
        r == guess_of(line@),
{
    let ghost s = line@;
    let n = line.unicode_len();
    let mut lo: usize = 0;
    while lo < n && is_blank_char(line.get_char(lo))
        invariant
            s == line@,
            n == s.len(),
            lo <= n,
            first_kept(s, lo as int) == first_kept(s, 0),
        decreases n - lo,
    {
        lo = lo + 1;
    }
    let mut hi: usize = n;
    while hi > lo && is_blank_char(line.get_char(hi - 1))
        invariant
            s == line@,
            n == s.len(),
            lo <= hi <= n,
            lo == first_kept(s, 0),
            last_kept(s, lo as int, hi as int) == last_kept(s, lo as int, n as int),
        decreases hi,
    {
        hi = hi - 1;
    }
    let ghost t = trimmed(s);
    assert(t =~= s.subrange(lo as int, hi as int));
    if lo < hi && line.get_char(lo) == '+' {
        lo = lo + 1;
    }
    let ghost d = guess_digits(s);
    assert(d =~= s.subrange(lo as int, hi as int));
    if lo == hi {
        return None;
    }
    let mut value: u32 = 0;
    let mut i: usize = lo;
    while i < hi
        invariant
            s == line@,
            lo <= i <= hi <= n == s.len(),
            d == s.subrange(lo as int, hi as int),
            d == guess_digits(s),
            all_digits(s.subrange(lo as int, i as int)),
            value as nat == decimal(s.subrange(lo as int, i as int)),
        decreases hi - i,
    {
        let c = line.get_char(i);
        let ghost prefix = s.subrange(lo as int, i as int + 1);
        assert(prefix.drop_last() =~= s.subrange(lo as int, i as int));
        assert(prefix.last() == c);
        if !('0' <= c && c <= '9') {
            assert(d[i - lo] == c);
            return None;
        }
        let digit = (c as u32) - ('0' as u32);
        if value > (u32::MAX - digit) / 10 {
            proof {
                let v = value as int;
                let g = digit as int;
                assert(v * 10 + g > u32::MAX) by (nonlinear_arith)
                    requires
                        v > (u32::MAX - g) / 10,
                        0 <= g <= 9,
                ;
                assert(prefix =~= d.subrange(0, i - lo + 1));
                if all_digits(d) {
                    lemma_decimal_grows(d, i - lo + 1);
                }
            }
            return None;
        }
        value = value * 10 + digit;
        i = i + 1;
    }
    proof {
        assert(s.subrange(lo as int, i as int) =~= d);
    }
    Some(value)
}

fn is_blank_char(c: char) -> (r: bool)
    ensures
        r == is_blank(c),
{
    c == ' ' || c == '\t' || c == '\n' || c == '\r' || c == '\x0b' || c == '\x0c'
}

} // verus!
