use crate::bird::{lemma_tag_injective, Bird};
use vstd::prelude::*;
use vstd::string::StringExecFns;

verus! {

/// A move that has a short canonical name, under which the results of
/// playing it are gathered.
pub trait SimplifiableMove {
    /// The canonical name of the move.
    spec fn key(&self) -> Seq<char>;

    /// The canonical name of the move.
    fn simplified(&self) -> (name: String)
        ensures
            name@ == self.key(),
    ;
}

/// The choice at the end of a turn: to let the flock of one species fly
/// home, or none.
#[derive(Debug, Clone, Copy, Hash, Eq, PartialEq, Structural)]
pub struct FlockMove {
    pub bird: Option<Bird>,
}

/// The choice at the start of a turn: all cards of one species, laid at the
/// left or the right end of one line, and whether two cards were drawn after
/// the play.
#[derive(Debug, Clone, Copy, Hash, Eq, PartialEq, Structural)]
pub struct LineMove {
    pub line: usize,
    pub bird: Bird,
    pub left: bool,
    pub draw: bool,
}

/// The decimal digit for a number below ten.
pub open spec fn digit(d: int) -> char {
    if d == 0 {
        '0'
    } else if d == 1 {
        '1'
    } else if d == 2 {
        '2'
    } else if d == 3 {
        '3'
    } else if d == 4 {
        '4'
    } else if d == 5 {
        '5'
    } else if d == 6 {
        '6'
    } else if d == 7 {
        '7'
    } else if d == 8 {
        '8'
    } else {
        '9'
    }
}

/// The decimal digits of a number, without leading zeros.
pub open spec fn decimal(n: nat) -> Seq<char>
    decreases n,
{
    if n < 10 {
        seq![digit(n as int)]
    } else {
        decimal(n / 10).push(digit((n % 10) as int))
    }
}

/// The letter for the end of the line: `L` for left, `R` for right.
pub open spec fn side(left: bool) -> char {
    if left {
        'L'
    } else {
        'R'
    }
}

/// The letter for what followed the play: `D` for a draw, `P` for none.
pub open spec fn follow_up(draw: bool) -> char {
    if draw {
        'D'
    } else {
        'P'
    }
}

/// A number with at least two digits is at least ten, and every number has
/// a digit.
pub proof fn lemma_decimal_len(n: nat)
    ensures
        decimal(n).len() >= 1,
        decimal(n).len() == 1 <==> n < 10,
    decreases n,
{
    if n >= 10 {
        lemma_decimal_len(n / 10);
    }
}

/// Different numbers have different decimal digits.
pub proof fn lemma_decimal_injective(m: nat, n: nat)
    requires
        decimal(m) == decimal(n),
    ensures
        m == n,
    decreases m,
{
    lemma_decimal_len(m);
    lemma_decimal_len(n);
    if m < 10 {
        assert(decimal(m)[0] == digit(m as int));
        assert(decimal(n)[0] == digit(n as int));
    } else {
        let a = decimal(m / 10);
        let b = decimal(n / 10);
        assert(decimal(m).drop_last() =~= a);
        assert(decimal(n).drop_last() =~= b);
        assert(decimal(m).last() == digit((m % 10) as int));
        assert(decimal(n).last() == digit((n % 10) as int));
        lemma_decimal_injective(m / 10, n / 10);
        assert(m % 10 == n % 10);
    }
}

/// The string of one decimal digit.
fn digit_str(d: usize) -> (s: &'static str)
    requires
        d < 10,
    ensures
        s@ == seq![digit(d as int)],
{
    proof {
        reveal_strlit("0");
        reveal_strlit("1");
        reveal_strlit("2");
        reveal_strlit("3");
        reveal_strlit("4");
        reveal_strlit("5");
        reveal_strlit("6");
        reveal_strlit("7");
        reveal_strlit("8");
        reveal_strlit("9");
    }
    let s = match d {
        0 => "0",
        1 => "1",
        2 => "2",
        3 => "3",
        4 => "4",
        5 => "5",
        6 => "6",
        7 => "7",
        8 => "8",
        _ => "9",
    };
    assert(s@ =~= seq![digit(d as int)]);
    s
}

/// Appends the decimal digits of `n` to `name`.
fn append_decimal(name: &mut String, n: usize)
    ensures
        final(name)@ == old(name)@ + decimal(n as nat),
    decreases n,
{
    if n >= 10 {
        append_decimal(name, n / 10);
    }
    name.append(digit_str(n % 10));
    assert(name@ =~= old(name)@ + decimal(n as nat));
}

/// The string of the tag of a species.
fn tag_str(bird: Bird) -> (s: &'static str)
    ensures
        s@ == seq![bird.tag()],
{
    proof {
        reveal_strlit("P");
        reveal_strlit("W");
        reveal_strlit("T");
        reveal_strlit("F");
        reveal_strlit("R");
        reveal_strlit("M");
        reveal_strlit("O");
        reveal_strlit("D");
    }
    let s = match bird {
        Bird::PARROT => "P",
        Bird::WARBLER => "W",
        Bird::TOUCAN => "T",
        Bird::FLAMINGO => "F",
        Bird::ROBIN => "R",
        Bird::MAGPIE => "M",
        Bird::OWL => "O",
        Bird::DUCK => "D",
    };
    assert(s@ =~= seq![bird.tag()]);
    s
}

impl SimplifiableMove for FlockMove {
    /// The tag of the species, or `_` where no flock flies home.
    open spec fn key(&self) -> Seq<char> {
        match self.bird {
            Some(bird) => seq![bird.tag()],
            None => seq!['_'],
        }
    }

    fn simplified(&self) -> (name: String) {
        let mut string = String::new();
        if let Some(bird) = self.bird {
            string.append(tag_str(bird));
        } else {
            proof {
                reveal_strlit("_");
            }
            string.append("_");
        }
        assert(string@ =~= self.key());
        string
    }
}

impl SimplifiableMove for LineMove {
    /// The tag of the species, the number of the line in decimal digits,
    /// `L` or `R` for the end of the line, and `D` where cards were drawn,
    /// `P` where not.
    open spec fn key(&self) -> Seq<char> {
        seq![self.bird.tag()] + decimal(self.line as nat) + seq![
            side(self.left),
            follow_up(self.draw),
        ]
    }

    fn simplified(&self) -> (name: String) {
        proof {
            reveal_strlit("L");
            reveal_strlit("R");
            reveal_strlit("D");
            reveal_strlit("P");
        }
        let mut string = String::new();
        string.append(tag_str(self.bird));
        append_decimal(&mut string, self.line);
        string.append(
            if self.left {
                "L"
            } else {
                "R"
            },
        );
        string.append(
            if self.draw {
                "D"
            } else {
                "P"
            },
        );
        assert(string@ =~= self.key());
        string
    }
}

/// No two choices of a flock have the same canonical name.
pub proof fn lemma_flock_key_injective(a: FlockMove, b: FlockMove)
    requires
        a.key() == b.key(),
    ensures
        a == b,
{
    assert(a.key()[0] == b.key()[0]);
    match (a.bird, b.bird) {
        (Some(x), Some(y)) => {
            assert(a.key()[0] == x.tag());
            assert(b.key()[0] == y.tag());
            lemma_tag_injective(x, y);
        },
        (Some(x), None) => {
            assert(a.key()[0] == x.tag());
            assert(b.key()[0] == '_');
        },
        (None, Some(y)) => {
            assert(a.key()[0] == '_');
            assert(b.key()[0] == y.tag());
        },
        (None, None) => {},
    }
}

/// No two line moves have the same canonical name.
pub proof fn lemma_line_key_injective(a: LineMove, b: LineMove)
    requires
        a.key() == b.key(),
    ensures
        a == b,
{
    let da = decimal(a.line as nat);
    let db = decimal(b.line as nat);
    let ka = a.key();
    let kb = b.key();
    assert(ka.len() == da.len() + 3);
    assert(kb.len() == db.len() + 3);
    assert(ka[0] == a.bird.tag());
    assert(kb[0] == b.bird.tag());
    lemma_tag_injective(a.bird, b.bird);
    assert(ka[ka.len() - 1] == follow_up(a.draw));
    assert(kb[kb.len() - 1] == follow_up(b.draw));
    assert(ka[ka.len() - 2] == side(a.left));
    assert(kb[kb.len() - 2] == side(b.left));
    assert(ka.subrange(1, 1 + da.len() as int) =~= da);
    assert(kb.subrange(1, 1 + db.len() as int) =~= db);
    lemma_decimal_injective(a.line as nat, b.line as nat);
}

} // verus!
