//! Text output of paths.
use vstd::prelude::*;
use crate::grid::Cell;
use crate::high_level::{Agent, Path};

verus! {

/// The decimal digits of `n`.
pub open spec fn digits(n: nat) -> Seq<char>
    decreases n,
{
    if n < 10 {
        seq![digit_char(n)]
    } else {
        digits(n / 10).push(digit_char(n % 10))
    }
}

pub open spec fn digit_char(d: nat) -> char {
    if d == 0 {
        '0'
    } else if d == 1 {
        '1'
    } else if d == 2 {
        '2'
    } else if d == 3 {
        '3'
    } else if d == 4 {
        '4'
    } else if d == 5 {
        '5'
    } else if d == 6 {
        '6'
    } else if d == 7 {
        '7'
    } else if d == 8 {
        '8'
    } else {
        '9'
    }
}

/// An integer in decimal, with a minus sign when it is negative.
pub open spec fn int_text(v: int) -> Seq<char> {
    if v < 0 {
        seq!['-'] + digits((-v) as nat)
    } else {
        digits(v as nat)
    }
}

/// `(y,x)->` for the cell `(x, y)`.
pub open spec fn cell_text(c: Cell) -> Seq<char> {
    seq!['('] + int_text(c.1 as int) + seq![','] + int_text(c.0 as int) + seq![')', '-', '>']
}

/// The cells of a path, each as `(y,x)->`.
pub open spec fn cells_text(p: Seq<Cell>) -> Seq<char>
    decreases p.len(),
{
    if p.len() == 0 {
        Seq::empty()
    } else {
        cells_text(p.drop_last()) + cell_text(p.last())
    }
}

/// `Agent <id>: ` followed by the path's cells.
pub open spec fn path_text(id: Seq<char>, p: Seq<Cell>) -> Seq<char> {
    seq!['A', 'g', 'e', 'n', 't', ' '] + id + seq![':', ' '] + cells_text(p)
}

/// One line per agent, in agent order.
pub open spec fn paths_text(agents: Seq<Agent>, paths: Seq<Path>) -> Seq<char>
    decreases paths.len(),
{
    if paths.len() == 0 || agents.len() < paths.len() {
        Seq::empty()
    } else {
        paths_text(agents, paths.drop_last()) + path_text(agents[paths.len() - 1].id@, paths.last()@) + seq!['\n']
    }
}

/// Relies on `String::push`: appends one character.
#[verifier::external_body]
fn push_char(s: &mut String, c: char)
    ensures
        final(s)@ == old(s)@.push(c),
{
    s.push(c)
}

/// Relies on `String::push_str`: appends the characters of `t`.
#[verifier::external_body]
fn push_text(s: &mut String, t: &str)
    ensures
        final(s)@ == old(s)@ + t@,
{
    s.push_str(t)
}

fn digit(d: u64) -> (r: char)
    requires
        d < 10,
    ensures
        r == digit_char(d as nat),
{
    if d == 0 {
        '0'
    } else if d == 1 {
        '1'
    } else if d == 2 {
        '2'
    } else if d == 3 {
        '3'
    } else if d == 4 {
        '4'
    } else if d == 5 {
        '5'
    } else if d == 6 {
        '6'
    } else if d == 7 {
        '7'
    } else if d == 8 {
        '8'
    } else {
        '9'
    }
}

/// Appends the decimal digits of `n`.
pub(crate) fn push_digits(s: &mut String, n: u64)
    ensures
        final(s)@ == old(s)@ + digits(n as nat),
    decreases n,
{
    if n < 10 {
        push_char(s, digit(n));
        proof {
            assert(old(s)@.push(digit_char(n as nat)) =~= old(s)@ + digits(n as nat));
        }
    } else {
        push_digits(s, n / 10);
        push_char(s, digit(n % 10));
        proof {
            assert(old(s)@ + digits(n as nat) =~= old(s)@ + digits((n / 10) as nat) + seq![digit_char((n % 10) as nat)]);
        }
    }
}

/// Appends an integer in decimal.
fn push_int(s: &mut String, v: i32)
    ensures
        final(s)@ == old(s)@ + int_text(v as int),
{
    if v < 0 {
        push_char(s, '-');
        let m: u32 = if v == i32::MIN {
            2147483648u32
        } else {
            (-v) as u32
        };
        push_digits(s, m as u64);
        proof {
            assert(old(s)@ + int_text(v as int) =~= old(s)@.push('-') + digits(m as nat));
        }
    } else {
        push_digits(s, v as u64);
    }
}

/// Appends `(y,x)->`.
fn push_cell(s: &mut String, c: Cell)
    ensures
        final(s)@ == old(s)@ + cell_text(c),
{
    let ghost s0 = s@;
    push_char(s, '(');
    push_int(s, c.1);
    push_char(s, ',');
    push_int(s, c.0);
    push_char(s, ')');
    push_char(s, '-');
    push_char(s, '>');
    proof {
        assert(s@ =~= s0 + cell_text(c));
    }
}

/// The line of one agent: `Agent <id>: (y,x)->(y,x)->...`, the second coordinate first.
pub fn path_to_string(agent_id: &str, path: &Path) -> (r: String)
    ensures
        r@ == path_text(agent_id@, path@),
{
    let mut s = String::new();
    push_text(&mut s, "Agent ");
    push_text(&mut s, agent_id);
    push_text(&mut s, ": ");
    proof {
        reveal_strlit("Agent ");
        reveal_strlit(": ");
    }
    let ghost head = s@;
    let mut i: usize = 0;
    while i < path.len()
        invariant
            i <= path@.len(),
            s@ == head + cells_text(path@.take(i as int)),
        decreases path@.len() - i,
    {
        proof {
            assert(path@.take(i + 1).drop_last() =~= path@.take(i as int));
        }
        push_cell(&mut s, path[i]);
        i += 1;
        proof {
            assert(s@ =~= head + cells_text(path@.take(i as int)));
        }
    }
    proof {
        assert(path@.take(i as int) =~= path@);
        assert(s@ =~= path_text(agent_id@, path@));
    }
    s
}

/// The lines of all agents, in agent order, each ending in a newline.
pub fn paths_to_string(agents: &Vec<Agent>, paths: &Vec<Path>) -> (r: String)
    requires
        paths@.len() <= agents@.len(),
    ensures
        r@ == paths_text(agents@, paths@),
{
    let mut s = String::new();
    let mut i: usize = 0;
    while i < paths.len()
        invariant
            i <= paths@.len(),
            paths@.len() <= agents@.len(),
            s@ == paths_text(agents@, paths@.take(i as int)),
        decreases paths@.len() - i,
    {
        let line = path_to_string(agents[i].id.as_str(), &paths[i]);
        push_text(&mut s, line.as_str());
        push_char(&mut s, '\n');
        proof {
            assert(paths@.take(i + 1).drop_last() =~= paths@.take(i as int));
            assert(s@ =~= paths_text(agents@, paths@.take(i + 1)));
        }
        i += 1;
    }
    proof {
        assert(paths@.take(i as int) =~= paths@);
    }
    s
}

} // verus!
