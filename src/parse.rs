//! Reading the octile map format and the scenario format from bytes.
use vstd::prelude::*;
use crate::grid::{Cell, Grid, LocationTime, Obstacles};
use crate::high_level::Agent;

verus! {

#[derive(Debug, Clone, Copy, PartialEq, Eq)]
pub enum ParseError {
    InvalidMap,
    InvalidScenario,
}

/// The pieces of `text` between the separators, the last piece after the last separator
/// included; `cur` is the piece read so far.
pub open spec fn split_from(text: Seq<u8>, sep: u8, cur: Seq<u8>) -> Seq<Seq<u8>>
    decreases text.len(),
{
    if text.len() == 0 {
        seq![cur]
    } else if text[0] == sep {
        seq![cur] + split_from(text.drop_first(), sep, Seq::empty())
    } else {
        split_from(text.drop_first(), sep, cur.push(text[0]))
    }
}

pub open spec fn split_on(text: Seq<u8>, sep: u8) -> Seq<Seq<u8>> {
    split_from(text, sep, Seq::empty())
}

pub open spec fn bytes_view(v: Seq<Vec<u8>>) -> Seq<Seq<u8>> {
    v.map_values(|b: Vec<u8>| b@)
}

/// A line without the carriage return that may end it.
pub open spec fn strip_cr(line: Seq<u8>) -> Seq<u8> {
    if line.len() > 0 && line.last() == 13u8 {
        line.drop_last()
    } else {
        line
    }
}

/// The lines of a text: split at `\n`, each without a final `\r`.
pub open spec fn lines_of(text: Seq<u8>) -> Seq<Seq<u8>> {
    split_on(text, 10u8).map_values(|l: Seq<u8>| strip_cr(l))
}

pub open spec fn is_digit(b: u8) -> bool {
    48 <= b <= 57
}

/// The value of a string of decimal digits.
pub open spec fn dec(s: Seq<u8>) -> int
    decreases s.len(),
{
    if s.len() == 0 {
        0
    } else {
        dec(s.drop_last()) * 10 + (s.last() - 48)
    }
}

/// One to nine decimal digits.
pub open spec fn is_number(s: Seq<u8>) -> bool {
    1 <= s.len() <= 9 && forall|k: int| 0 <= k < s.len() ==> is_digit(#[trigger] s[k])
}

/// `line` is `prefix` followed by a number.
pub open spec fn is_field(line: Seq<u8>, prefix: Seq<u8>) -> bool {
    line.len() >= prefix.len() && line.take(prefix.len() as int) == prefix && is_number(line.skip(prefix.len() as int))
}

pub open spec fn field_value(line: Seq<u8>, prefix: Seq<u8>) -> int {
    dec(line.skip(prefix.len() as int))
}

pub open spec fn type_octile() -> Seq<u8> {
    seq![116u8, 121, 112, 101, 32, 111, 99, 116, 105, 108, 101]
}

pub open spec fn height_word() -> Seq<u8> {
    seq![104u8, 101, 105, 103, 104, 116, 32]
}

pub open spec fn width_word() -> Seq<u8> {
    seq![119u8, 105, 100, 116, 104, 32]
}

pub open spec fn map_word() -> Seq<u8> {
    seq![109u8, 97, 112]
}

/// One of `. G @ O T S W`.
pub open spec fn is_map_char(b: u8) -> bool {
    b == 46 || b == 71 || b == 64 || b == 79 || b == 84 || b == 83 || b == 87
}

/// The lines hold a map: the header, then at least `height` rows of `width` map
/// characters each.
pub open spec fn map_ok(ls: Seq<Seq<u8>>) -> bool {
    &&& ls.len() >= 4
    &&& ls[0] == type_octile()
    &&& is_field(ls[1], height_word())
    &&& is_field(ls[2], width_word())
    &&& ls[3] == map_word()
    &&& ls.len() >= 4 + field_value(ls[1], height_word())
    &&& forall|r: int|
        0 <= r < field_value(ls[1], height_word()) ==> (#[trigger] ls[4 + r]).len() == field_value(ls[2], width_word())
            && forall|x: int| 0 <= x < ls[4 + r].len() ==> is_map_char(#[trigger] ls[4 + r][x])
}

/// `g` is the grid of the map in the lines `ls`: its size is the header's, its goal is
/// `(0, 0)`, and it has a permanent unconditional entry exactly on each `@`.
pub open spec fn parsed_map(ls: Seq<Seq<u8>>, g: Grid) -> bool {
    &&& g.width == field_value(ls[2], width_word())
    &&& g.height == field_value(ls[1], height_word())
    &&& g.goal == (0i32, 0i32)
    &&& forall|k: int|
        0 <= k < g.obstacles@.len() ==> (#[trigger] g.obstacles@[k]).0.time == -1 && g.obstacles@[k].1@.len() == 0
            && 0 <= g.obstacles@[k].0.location.0 < g.width && 0 <= g.obstacles@[k].0.location.1 < g.height
            && ls[4 + g.obstacles@[k].0.location.1][g.obstacles@[k].0.location.0 as int] == 64u8
    &&& forall|x: int, y: int|
        0 <= x < g.width && 0 <= y < g.height && #[trigger] ls[4 + y][x] == 64u8 ==> exists|k: int|
            0 <= k < g.obstacles@.len() && (#[trigger] g.obstacles@[k]).0.location == (x as i32, y as i32)
}

/// Splits `text` at every `sep`.
pub fn split_bytes(text: &Vec<u8>, sep: u8) -> (r: Vec<Vec<u8>>)
    ensures
        bytes_view(r@) == split_on(text@, sep),
{
    let mut out: Vec<Vec<u8>> = Vec::new();
    let mut cur: Vec<u8> = Vec::new();
    let mut i: usize = 0;
    proof {
        assert(text@.skip(0) =~= text@);
        assert(bytes_view(out@) =~= Seq::<Seq<u8>>::empty());
        assert(cur@ =~= Seq::<u8>::empty());
    }
    while i < text.len()
        invariant
            i <= text@.len(),
            bytes_view(out@) + split_from(text@.skip(i as int), sep, cur@) == split_on(text@, sep),
        decreases text@.len() - i,
    {
        let ghost rest = text@.skip(i as int);
        assert(rest.drop_first() =~= text@.skip(i + 1));
        assert(rest[0] == text@[i as int]);
        if text[i] == sep {
            let ghost before = out@;
            let ghost piece = cur@;
            out.push(cur);
            cur = Vec::new();
            proof {
                assert(bytes_view(out@) =~= bytes_view(before) + seq![piece]);
                assert(bytes_view(out@) + split_from(text@.skip(i + 1), sep, cur@) =~= bytes_view(before) + split_from(rest, sep, piece));
            }
        } else {
            cur.push(text[i]);
        }
        i += 1;
    }
    proof {
        assert(text@.skip(i as int) =~= Seq::<u8>::empty());
    }
    let ghost before = out@;
    out.push(cur);
    proof {
        assert(bytes_view(out@) =~= bytes_view(before) + seq![cur@]);
    }
    out
}

/// The lines of `text`.
pub fn split_lines(text: &Vec<u8>) -> (r: Vec<Vec<u8>>)
    ensures
        bytes_view(r@) == lines_of(text@),
{
    let pieces = split_bytes(text, 10u8);
    let mut out: Vec<Vec<u8>> = Vec::new();
    let mut i: usize = 0;
    while i < pieces.len()
        invariant
            i <= pieces@.len(),
            bytes_view(pieces@) == split_on(text@, 10u8),
            out@.len() == i,
            forall|k: int| 0 <= k < i ==> (#[trigger] out@[k])@ == strip_cr(pieces@[k]@),
        decreases pieces@.len() - i,
    {
        let p = &pieces[i];
        let mut line: Vec<u8> = Vec::new();
        let n = if p.len() > 0 && p[p.len() - 1] == 13u8 {
            p.len() - 1
        } else {
            p.len()
        };
        let mut j: usize = 0;
        while j < n
            invariant
                j <= n <= p@.len(),
                line@ == p@.take(j as int),
            decreases n - j,
        {
            line.push(p[j]);
            j += 1;
            proof {
                assert(line@ =~= p@.take(j as int));
            }
        }
        proof {
            if p@.len() > 0 && p@.last() == 13u8 {
                assert(p@.take(n as int) =~= p@.drop_last());
            } else {
                assert(p@.take(n as int) =~= p@);
            }
        }
        out.push(line);
        i += 1;
    }
    proof {
        assert forall|k: int| 0 <= k < out@.len() implies bytes_view(out@)[k] == lines_of(text@)[k] by {
            assert(bytes_view(pieces@)[k] == pieces@[k]@);
        }
        assert(bytes_view(out@) =~= lines_of(text@));
    }
    out
}

/// Whether `line` is `word`.
fn is_word(line: &Vec<u8>, word: &Vec<u8>) -> (r: bool)
    ensures
        r == (line@ == word@),
{
    if line.len() != word.len() {
        return false;
    }
    let mut i: usize = 0;
    while i < line.len()
        invariant
            i <= line@.len(),
            line@.len() == word@.len(),
            forall|k: int| 0 <= k < i ==> line@[k] == word@[k],
        decreases line@.len() - i,
    {
        if line[i] != word[i] {
            return false;
        }
        i += 1;
    }
    proof {
        assert(line@ =~= word@);
    }
    true
}

/// The number that follows `skip` bytes of `line`, when one to nine digits follow.
fn number_after(line: &Vec<u8>, skip: usize) -> (r: Option<i32>)
    requires
        skip <= line@.len(),
    ensures
        r is Some <==> is_number(line@.skip(skip as int)),
        r matches Some(v) ==> v == dec(line@.skip(skip as int)) && v >= 0,
{
    let ghost s = line@.skip(skip as int);
    let n = line.len() - skip;
    if n < 1 || n > 9 {
        return None;
    }
    let mut v: i32 = 0;
    let mut j: usize = skip;
    while j < line.len()
        invariant
            skip <= j <= line@.len(),
            n <= 9,
            n == s.len(),
            s == line@.skip(skip as int),
            skip + n == line@.len(),
            forall|k: int| 0 <= k < j - skip ==> is_digit(#[trigger] s[k]),
            v == dec(s.take(j - skip)),
            0 <= v < bound(j - skip),
        decreases line@.len() - j,
    {
        let i: usize = j - skip;
        let b = line[j];
        assert(b == s[i as int]);
        if !(48 <= b && b <= 57) {
            return None;
        }
        proof {
            assert(s.take(i + 1).drop_last() =~= s.take(i as int));
            let bi = bound(i as int);
            assert(bound(i + 1) == bi * 10);
            assert(v * 10 + 9 < bi * 10) by (nonlinear_arith)
                requires
                    v < bi,
            ;
        }
        v = v * 10 + (b - 48) as i32;
        j += 1;
    }
    proof {
        assert(s.take(j - skip) =~= s);
    }
    Some(v)
}

/// `10^i` for `i` up to 9.
pub open spec fn bound(i: int) -> int {
    if i <= 0 {
        1
    } else if i == 1 {
        10
    } else if i == 2 {
        100
    } else if i == 3 {
        1000
    } else if i == 4 {
        10000
    } else if i == 5 {
        100000
    } else if i == 6 {
        1000000
    } else if i == 7 {
        10000000
    } else if i == 8 {
        100000000
    } else {
        1000000000
    }
}

/// The grid of an octile map: `@` marks a permanent obstacle at `(column, row)`; the
/// other characters are free. The goal is `(0, 0)`.
pub fn parse_map_lines(lines: &Vec<Vec<u8>>) -> (r: Result<Grid, ParseError>)
    ensures
        r is Ok <==> map_ok(bytes_view(lines@)),
        r matches Ok(g) ==> parsed_map(bytes_view(lines@), g),
{
    let ghost ls = bytes_view(lines@);
    if lines.len() < 4 {
        return Err(ParseError::InvalidMap);
    }
    proof {
        assert(forall|k: int| 0 <= k < lines@.len() ==> ls[k] == (#[trigger] lines@[k])@);
    }
    let tw: Vec<u8> = vec![116u8, 121, 112, 101, 32, 111, 99, 116, 105, 108, 101];
    let hw: Vec<u8> = vec![104u8, 101, 105, 103, 104, 116, 32];
    let ww: Vec<u8> = vec![119u8, 105, 100, 116, 104, 32];
    let mw: Vec<u8> = vec![109u8, 97, 112];
    proof {
        assert(tw@ =~= type_octile());
        assert(hw@ =~= height_word());
        assert(ww@ =~= width_word());
        assert(mw@ =~= map_word());
    }
    if !is_word(&lines[0], &tw) || !is_word(&lines[3], &mw) {
        return Err(ParseError::InvalidMap);
    }
    if lines[1].len() < 7 || lines[2].len() < 6 {
        return Err(ParseError::InvalidMap);
    }
    let hp = prefix_of(&lines[1], 7);
    let wp = prefix_of(&lines[2], 6);
    if !is_word(&hp, &hw) || !is_word(&wp, &ww) {
        return Err(ParseError::InvalidMap);
    }
    proof {
        assert(height_word().len() == 7);
        assert(width_word().len() == 6);
    }
    let height = match number_after(&lines[1], 7) {
        Some(v) => v,
        None => {
            return Err(ParseError::InvalidMap);
        },
    };
    let width = match number_after(&lines[2], 6) {
        Some(v) => v,
        None => {
            return Err(ParseError::InvalidMap);
        },
    };
    if lines.len() - 4 < height as usize {
        proof {
            assert(!map_ok(ls));
        }
        return Err(ParseError::InvalidMap);
    }
    let mut obstacles: Obstacles = Vec::new();
    let mut y: i32 = 0;
    while y < height
        invariant
            0 <= y <= height,
            ls == bytes_view(lines@),
            forall|k: int| 0 <= k < lines@.len() ==> ls[k] == (#[trigger] lines@[k])@,
            lines@.len() >= 4 + height,
            height == field_value(ls[1], height_word()),
            width == field_value(ls[2], width_word()),
            0 <= width,
            forall|r: int|
                0 <= r < y ==> (#[trigger] ls[4 + r]).len() == width && forall|x: int| 0 <= x < ls[4 + r].len() ==> is_map_char(
                    #[trigger] ls[4 + r][x],
                ),
            forall|k: int|
                0 <= k < obstacles@.len() ==> (#[trigger] obstacles@[k]).0.time == -1 && obstacles@[k].1@.len() == 0 && 0
                    <= obstacles@[k].0.location.0 < width && 0 <= obstacles@[k].0.location.1 < y && ls[4
                    + obstacles@[k].0.location.1][obstacles@[k].0.location.0 as int] == 64u8,
            forall|x: int, yy: int|
                0 <= x < width && 0 <= yy < y && #[trigger] ls[4 + yy][x] == 64u8 ==> exists|k: int|
                    0 <= k < obstacles@.len() && (#[trigger] obstacles@[k]).0.location == (x as i32, yy as i32),
        decreases height - y,
    {
        let row = &lines[4 + y as usize];
        if row.len() != width as usize {
            proof {
                assert(ls[4 + y as int].len() != width);
                assert(!map_ok(ls));
            }
            return Err(ParseError::InvalidMap);
        }
        let mut x: i32 = 0;
        while x < width
            invariant
                0 <= y < height,
                0 <= x <= width,
                ls == bytes_view(lines@),
                forall|k: int| 0 <= k < lines@.len() ==> ls[k] == (#[trigger] lines@[k])@,
                lines@.len() >= 4 + height,
                height == field_value(ls[1], height_word()),
                width == field_value(ls[2], width_word()),
                forall|r: int|
                    0 <= r < y ==> (#[trigger] ls[4 + r]).len() == width && forall|c: int| 0 <= c < ls[4 + r].len() ==> is_map_char(
                        #[trigger] ls[4 + r][c],
                    ),
                row@ == ls[4 + y],
                row@.len() == width,
                forall|c: int| 0 <= c < x ==> is_map_char(#[trigger] row@[c]),
                forall|k: int|
                    0 <= k < obstacles@.len() ==> (#[trigger] obstacles@[k]).0.time == -1 && obstacles@[k].1@.len() == 0 && 0
                        <= obstacles@[k].0.location.0 < width && 0 <= obstacles@[k].0.location.1 <= y && ls[4
                        + obstacles@[k].0.location.1][obstacles@[k].0.location.0 as int] == 64u8,
                forall|c: int, yy: int|
                    0 <= c < width && 0 <= yy < y && #[trigger] ls[4 + yy][c] == 64u8 ==> exists|k: int|
                        0 <= k < obstacles@.len() && (#[trigger] obstacles@[k]).0.location == (c as i32, yy as i32),
                forall|c: int|
                    0 <= c < x && #[trigger] row@[c] == 64u8 ==> exists|k: int|
                        0 <= k < obstacles@.len() && (#[trigger] obstacles@[k]).0.location == (c as i32, y),
            decreases width - x,
        {
            let b = row[x as usize];
            if !(b == 46 || b == 71 || b == 64 || b == 79 || b == 84 || b == 83 || b == 87) {
                proof {
                    assert(ls[4 + y as int].len() == width);
                    assert(!is_map_char(ls[4 + y as int][x as int]));
                    assert(!map_ok(ls));
                }
                return Err(ParseError::InvalidMap);
            }
            if b == 64 {
                let ghost before = obstacles@;
                obstacles.push((LocationTime { location: (x, y), time: -1 }, Vec::new()));
                proof {
                    assert forall|c: int, yy: int|
                        0 <= c < width && 0 <= yy < y && #[trigger] ls[4 + yy][c] == 64u8 implies exists|k: int|
                            0 <= k < obstacles@.len() && (#[trigger] obstacles@[k]).0.location == (c as i32, yy as i32) by {
                        let k = choose|k: int| 0 <= k < before.len() && (#[trigger] before[k]).0.location == (c as i32, yy as i32);
                        assert(obstacles@[k] == before[k]);
                    }
                    assert forall|c: int| 0 <= c < x + 1 && #[trigger] row@[c] == 64u8 implies exists|k: int|
                        0 <= k < obstacles@.len() && (#[trigger] obstacles@[k]).0.location == (c as i32, y) by {
                        if c < x {
                            let k = choose|k: int| 0 <= k < before.len() && (#[trigger] before[k]).0.location == (c as i32, y);
                            assert(obstacles@[k] == before[k]);
                        } else {
                            assert(obstacles@[before.len() as int].0.location == (c as i32, y));
                        }
                    }
                }
            }
            x += 1;
        }
        proof {
            assert(ls[4 + y as int] == row@);
            assert forall|r: int| 0 <= r < y + 1 implies (#[trigger] ls[4 + r]).len() == width && forall|c: int|
                0 <= c < ls[4 + r].len() ==> is_map_char(#[trigger] ls[4 + r][c]) by {
                if r == y {
                    assert forall|c: int| 0 <= c < ls[4 + r].len() implies is_map_char(#[trigger] ls[4 + r][c]) by {
                        assert(row@[c] == ls[4 + r][c]);
                    }
                }
            }
            assert forall|c: int, yy: int|
                0 <= c < width && 0 <= yy < y + 1 && #[trigger] ls[4 + yy][c] == 64u8 implies exists|k: int|
                    0 <= k < obstacles@.len() && (#[trigger] obstacles@[k]).0.location == (c as i32, yy as i32) by {
                if yy == y {
                    assert(row@[c] == 64u8);
                }
            }
        }
        y += 1;
    }
    let ghost obs = obstacles@;
    let g = Grid { width, height, obstacles, goal: (0, 0) };
    proof {
        assert(y == height);
        assert(map_ok(ls));
        assert(g.width == field_value(ls[2], width_word()));
        assert(g.height == field_value(ls[1], height_word()));
        assert(forall|k: int|
            0 <= k < g.obstacles@.len() ==> (#[trigger] g.obstacles@[k]).0.time == -1 && g.obstacles@[k].1@.len() == 0
                && 0 <= g.obstacles@[k].0.location.0 < g.width && 0 <= g.obstacles@[k].0.location.1 < g.height
                && ls[4 + g.obstacles@[k].0.location.1][g.obstacles@[k].0.location.0 as int] == 64u8);
        assert forall|x: int, yy: int|
            0 <= x < g.width && 0 <= yy < g.height && #[trigger] ls[4 + yy][x] == 64u8 implies exists|k: int|
                0 <= k < g.obstacles@.len() && (#[trigger] g.obstacles@[k]).0.location == (x as i32, yy as i32) by {
            let k = choose|k: int| 0 <= k < obs.len() && (#[trigger] obs[k]).0.location == (x as i32, yy as i32);
            assert(g.obstacles@[k] == obs[k]);
        }
    }
    Ok(g)
}

/// The first `n` bytes of `line`.
fn prefix_of(line: &Vec<u8>, n: usize) -> (r: Vec<u8>)
    requires
        n <= line@.len(),
    ensures
        r@ == line@.take(n as int),
{
    let mut r: Vec<u8> = Vec::new();
    let mut i: usize = 0;
    while i < n
        invariant
            i <= n <= line@.len(),
            r@ == line@.take(i as int),
        decreases n - i,
    {
        r.push(line[i]);
        i += 1;
        proof {
            assert(r@ =~= line@.take(i as int));
        }
    }
    r
}

/// The grid of an octile map file.
pub fn parse_map(text: &Vec<u8>) -> (r: Result<Grid, ParseError>)
    ensures
        r is Ok <==> map_ok(lines_of(text@)),
        r matches Ok(g) ==> parsed_map(lines_of(text@), g),
{
    parse_map_lines(&split_lines(text))
}


pub open spec fn version_word() -> Seq<u8> {
    seq![118u8, 101, 114, 115, 105, 111, 110, 32]
}

/// `version ` followed by digits and dots, at least one.
pub open spec fn is_version(line: Seq<u8>) -> bool {
    &&& line.len() > version_word().len()
    &&& line.take(version_word().len() as int) == version_word()
    &&& forall|k: int| version_word().len() <= k < line.len() ==> is_digit(#[trigger] line[k]) || line[k] == 46u8
}

/// An agent line: nine tab-separated fields, the fifth to eighth numbers.
pub open spec fn is_agent_line(line: Seq<u8>) -> bool {
    let f = split_on(line, 9u8);
    &&& f.len() == 9
    &&& is_number(f[4]) && is_number(f[5]) && is_number(f[6]) && is_number(f[7])
}

/// Start and goal of an agent line.
pub open spec fn agent_cells(line: Seq<u8>) -> (Cell, Cell) {
    let f = split_on(line, 9u8);
    ((dec(f[4]) as i32, dec(f[5]) as i32), (dec(f[6]) as i32, dec(f[7]) as i32))
}

/// The starts and goals of the agent lines, empty lines left out.
pub open spec fn scenario_agents(ls: Seq<Seq<u8>>) -> Seq<(Cell, Cell)>
    decreases ls.len(),
{
    if ls.len() == 0 {
        Seq::empty()
    } else if ls.last().len() == 0 {
        scenario_agents(ls.drop_last())
    } else {
        scenario_agents(ls.drop_last()).push(agent_cells(ls.last()))
    }
}

/// Every line but the empty ones is an agent line.
pub open spec fn agent_lines_ok(ls: Seq<Seq<u8>>) -> bool {
    forall|k: int| 0 <= k < ls.len() && (#[trigger] ls[k]).len() > 0 ==> is_agent_line(ls[k])
}

pub open spec fn scenario_ok(ls: Seq<Seq<u8>>) -> bool {
    ls.len() >= 1 && is_version(ls[0]) && agent_lines_ok(ls.skip(1))
}

/// The agents of a scenario: the header `version <n[.n]>`, then one line per agent
/// (`bucket`, map, width, height, start x and y, goal x and y, optimal length, separated
/// by tabs). An agent's id is its index, in decimal; coordinates are taken as they stand.
pub fn parse_scenario_lines(lines: &Vec<Vec<u8>>) -> (r: Result<Vec<Agent>, ParseError>)
    ensures
        r is Ok <==> scenario_ok(bytes_view(lines@)),
        r matches Ok(agents) ==> {
            let expected = scenario_agents(bytes_view(lines@).skip(1));
            &&& agents@.len() == expected.len()
            &&& forall|k: int|
                0 <= k < agents@.len() ==> (#[trigger] agents@[k]).start == expected[k].0 && agents@[k].goal == expected[k].1
                    && agents@[k].id@ == crate::io::digits(k as nat)
        },
{
    let ghost ls = bytes_view(lines@);
    if lines.len() == 0 {
        return Err(ParseError::InvalidScenario);
    }
    proof {
        assert(forall|k: int| 0 <= k < lines@.len() ==> ls[k] == (#[trigger] lines@[k])@);
    }
    let vw: Vec<u8> = vec![118u8, 101, 114, 115, 105, 111, 110, 32];
    proof {
        assert(vw@ =~= version_word());
    }
    let head = &lines[0];
    if head.len() <= 8 || !is_word(&prefix_of(head, 8), &vw) {
        return Err(ParseError::InvalidScenario);
    }
    let mut j: usize = 8;
    while j < head.len()
        invariant
            8 <= j <= head@.len(),
            ls.len() >= 1,
            ls == bytes_view(lines@),
            head@ == ls[0],
            forall|k: int| 8 <= k < j ==> is_digit(#[trigger] head@[k]) || head@[k] == 46u8,
        decreases head@.len() - j,
    {
        if !((48 <= head[j] && head[j] <= 57) || head[j] == 46) {
            proof {
                assert(version_word().len() == 8);
                assert(ls[0][j as int] == head@[j as int]);
                assert(!is_version(ls[0]));
            }
            return Err(ParseError::InvalidScenario);
        }
        j += 1;
    }
    let ghost body = ls.skip(1);
    let mut agents: Vec<Agent> = Vec::new();
    let mut i: usize = 1;
    while i < lines.len()
        invariant
            1 <= i <= lines@.len(),
            ls == bytes_view(lines@),
            body == ls.skip(1),
            forall|k: int| 0 <= k < lines@.len() ==> ls[k] == (#[trigger] lines@[k])@,
            agent_lines_ok(body.take(i - 1)),
            agents@.len() == scenario_agents(body.take(i - 1)).len(),
            agents@.len() < i,
            forall|k: int|
                0 <= k < agents@.len() ==> (#[trigger] agents@[k]).start == scenario_agents(body.take(i - 1))[k].0
                    && agents@[k].goal == scenario_agents(body.take(i - 1))[k].1 && agents@[k].id@ == crate::io::digits(k as nat),
        decreases lines@.len() - i,
    {
        let line = &lines[i];
        proof {
            assert(body.take(i as int).drop_last() =~= body.take(i - 1));
            assert(body.take(i as int).last() == line@);
        }
        if line.len() > 0 {
            let fields = split_bytes(line, 9u8);
            proof {
                assert(forall|k: int| 0 <= k < fields@.len() ==> bytes_view(fields@)[k] == (#[trigger] fields@[k])@);
            }
            if fields.len() != 9 {
                proof {
                    assert(!agent_lines_ok(body)) by {
                        assert(body[i - 1] == line@);
                    }
                }
                return Err(ParseError::InvalidScenario);
            }
            let sx = number_after(&fields[4], 0);
            let sy = number_after(&fields[5], 0);
            let gx = number_after(&fields[6], 0);
            let gy = number_after(&fields[7], 0);
            proof {
                assert(fields@[4]@.skip(0) =~= fields@[4]@);
                assert(fields@[5]@.skip(0) =~= fields@[5]@);
                assert(fields@[6]@.skip(0) =~= fields@[6]@);
                assert(fields@[7]@.skip(0) =~= fields@[7]@);
            }
            match (sx, sy, gx, gy) {
                (Some(a), Some(b), Some(c), Some(d)) => {
                    let mut id = String::new();
                    crate::io::push_digits(&mut id, agents.len() as u64);
                    proof {
                        assert(id@ =~= crate::io::digits(agents@.len() as nat));
                    }
                    let ghost before = agents@;
                    agents.push(Agent { id, start: (a, b), goal: (c, d) });
                    proof {
                        assert(agent_cells(line@) == ((a, b), (c, d)));
                        assert forall|k: int| 0 <= k < body.take(i as int).len() && (#[trigger] body.take(i as int)[k]).len() > 0
                            implies is_agent_line(body.take(i as int)[k]) by {
                            if k < i - 1 {
                                assert(body.take(i as int)[k] == body.take(i - 1)[k]);
                            }
                        }
                        assert forall|k: int| 0 <= k < agents@.len() implies (#[trigger] agents@[k]).start == scenario_agents(
                            body.take(i as int),
                        )[k].0 && agents@[k].goal == scenario_agents(body.take(i as int))[k].1 && agents@[k].id@
                            == crate::io::digits(k as nat) by {
                            if k < before.len() {
                                assert(agents@[k] == before[k]);
                            }
                        }
                    }
                },
                _ => {
                    proof {
                        assert(!agent_lines_ok(body)) by {
                            assert(body[i - 1] == line@);
                        }
                    }
                    return Err(ParseError::InvalidScenario);
                },
            }
        } else {
            proof {
                assert forall|k: int| 0 <= k < body.take(i as int).len() && (#[trigger] body.take(i as int)[k]).len() > 0
                    implies is_agent_line(body.take(i as int)[k]) by {
                    assert(body.take(i as int)[k] == body.take(i - 1)[k]);
                }
            }
        }
        i += 1;
    }
    proof {
        assert(body.take(i - 1) =~= body);
    }
    Ok(agents)
}

/// The agents of a scenario file.
pub fn parse_scenario(text: &Vec<u8>) -> (r: Result<Vec<Agent>, ParseError>)
    ensures
        r is Ok <==> scenario_ok(lines_of(text@)),
{
    parse_scenario_lines(&split_lines(text))
}


/// The decimal digits of `n` as bytes.
pub open spec fn dec_bytes(n: nat) -> Seq<u8>
    decreases n,
{
    if n < 10 {
        seq![(n + 48) as u8]
    } else {
        dec_bytes(n / 10).push((n % 10 + 48) as u8)
    }
}

/// `@` where the grid has a permanent entry, `.` elsewhere.
pub open spec fn map_byte(obs: Seq<(LocationTime, Vec<Cell>)>, x: int, y: int) -> u8 {
    if exists|k: int| 0 <= k < obs.len() && #[trigger] obs[k].0 == (LocationTime { location: (x as i32, y as i32), time: -1i32 }) {
        64u8
    } else {
        46u8
    }
}

/// Row `y` of the map, without its line end.
pub open spec fn row_bytes(g: Grid, y: int) -> Seq<u8> {
    Seq::new(g.width as nat, |x: int| map_byte(g.obstacles@, x, y))
}

/// Rows `0..n` of the map, each ending in `\n`.
pub open spec fn rows_text(g: Grid, n: int) -> Seq<u8>
    decreases n,
{
    if n <= 0 {
        Seq::empty()
    } else {
        rows_text(g, n - 1) + row_bytes(g, n - 1) + seq![10u8]
    }
}

/// The octile text of a grid: the header, then one row per line.
pub open spec fn map_text(g: Grid) -> Seq<u8> {
    type_octile() + seq![10u8] + height_word() + dec_bytes(g.height as nat) + seq![10u8] + width_word() + dec_bytes(
        g.width as nat,
    ) + seq![10u8] + map_word() + seq![10u8] + rows_text(g, g.height as int)
}

fn push_dec(out: &mut Vec<u8>, n: u32)
    ensures
        final(out)@ == old(out)@ + dec_bytes(n as nat),
    decreases n,
{
    if n < 10 {
        out.push((n + 48) as u8);
        proof {
            assert(final(out)@ =~= old(out)@ + dec_bytes(n as nat));
        }
    } else {
        push_dec(out, n / 10);
        out.push((n % 10 + 48) as u8);
        proof {
            assert(old(out)@ + dec_bytes(n as nat) =~= old(out)@ + dec_bytes((n / 10) as nat) + seq![(n % 10 + 48) as u8]);
        }
    }
}

fn push_all(out: &mut Vec<u8>, b: &Vec<u8>)
    ensures
        final(out)@ == old(out)@ + b@,
{
    let mut i: usize = 0;
    let ghost start = out@;
    while i < b.len()
        invariant
            i <= b@.len(),
            out@ == start + b@.take(i as int),
        decreases b@.len() - i,
    {
        out.push(b[i]);
        i += 1;
        proof {
            assert(out@ =~= start + b@.take(i as int));
        }
    }
    proof {
        assert(b@.take(i as int) =~= b@);
    }
}

/// Whether the obstacles have an entry for `cell` at time `-1`.
fn has_permanent(obs: &Obstacles, cell: Cell) -> (r: bool)
    ensures
        r == exists|k: int| 0 <= k < obs@.len() && #[trigger] obs@[k].0 == (LocationTime { location: cell, time: -1i32 }),
{
    let mut k: usize = 0;
    while k < obs.len()
        invariant
            k <= obs@.len(),
            forall|j: int| 0 <= j < k ==> obs@[j].0 != (LocationTime { location: cell, time: -1i32 }),
        decreases obs@.len() - k,
    {
        if obs[k].0.location.0 == cell.0 && obs[k].0.location.1 == cell.1 && obs[k].0.time == -1 {
            proof {
                assert(obs@[k as int].0 == (LocationTime { location: cell, time: -1i32 }));
            }
            return true;
        }
        k += 1;
    }
    false
}

/// The octile text of a grid with non-negative dimensions.
pub fn map_to_bytes(g: &Grid) -> (r: Vec<u8>)
    requires
        g.width >= 0,
        g.height >= 0,
    ensures
        r@ == map_text(*g),
{
    let mut out: Vec<u8> = Vec::new();
    let tw: Vec<u8> = vec![116u8, 121, 112, 101, 32, 111, 99, 116, 105, 108, 101];
    let hw: Vec<u8> = vec![104u8, 101, 105, 103, 104, 116, 32];
    let ww: Vec<u8> = vec![119u8, 105, 100, 116, 104, 32];
    let mw: Vec<u8> = vec![109u8, 97, 112];
    proof {
        assert(tw@ =~= type_octile());
        assert(hw@ =~= height_word());
        assert(ww@ =~= width_word());
        assert(mw@ =~= map_word());
    }
    push_all(&mut out, &tw);
    out.push(10u8);
    push_all(&mut out, &hw);
    push_dec(&mut out, g.height as u32);
    out.push(10u8);
    push_all(&mut out, &ww);
    push_dec(&mut out, g.width as u32);
    out.push(10u8);
    push_all(&mut out, &mw);
    out.push(10u8);
    let ghost head = out@;
    proof {
        assert(head =~= type_octile() + seq![10u8] + height_word() + dec_bytes(g.height as nat) + seq![10u8] + width_word()
            + dec_bytes(g.width as nat) + seq![10u8] + map_word() + seq![10u8]);
    }
    let mut y: i32 = 0;
    while y < g.height
        invariant
            0 <= y <= g.height,
            g.width >= 0,
            out@ == head + rows_text(*g, y as int),
        decreases g.height - y,
    {
        let ghost before = out@;
        let mut x: i32 = 0;
        while x < g.width
            invariant
                0 <= x <= g.width,
                0 <= y < g.height,
                out@ == before + row_bytes(*g, y as int).take(x as int),
            decreases g.width - x,
        {
            let b: u8 = if has_permanent(&g.obstacles, (x, y)) {
                64u8
            } else {
                46u8
            };
            out.push(b);
            x += 1;
            proof {
                assert(out@ =~= before + row_bytes(*g, y as int).take(x as int));
            }
        }
        out.push(10u8);
        proof {
            assert(row_bytes(*g, y as int).take(x as int) =~= row_bytes(*g, y as int));
            assert(out@ =~= head + rows_text(*g, y + 1));
        }
        y += 1;
    }
    out
}


/// Splitting at a separator splits the parts on either side of it.
proof fn lemma_split_join(a: Seq<u8>, b: Seq<u8>, sep: u8, cur: Seq<u8>)
    ensures
        split_from(a + seq![sep] + b, sep, cur) == split_from(a, sep, cur) + split_on(b, sep),
    decreases a.len(),
{
    let t = a + seq![sep] + b;
    if a.len() == 0 {
        assert(t =~= seq![sep] + b);
        assert(t.drop_first() =~= b);
    } else {
        assert(t.drop_first() =~= a.drop_first() + seq![sep] + b);
        assert(t[0] == a[0]);
        if a[0] == sep {
            lemma_split_join(a.drop_first(), b, sep, Seq::empty());
        } else {
            lemma_split_join(a.drop_first(), b, sep, cur.push(a[0]));
        }
    }
}

/// A piece without the separator is one piece.
proof fn lemma_split_single(a: Seq<u8>, sep: u8, cur: Seq<u8>)
    requires
        forall|k: int| 0 <= k < a.len() ==> a[k] != sep,
    ensures
        split_from(a, sep, cur) == seq![cur + a],
    decreases a.len(),
{
    if a.len() == 0 {
        assert(cur + a =~= cur);
    } else {
        lemma_split_single(a.drop_first(), sep, cur.push(a[0]));
        assert(cur.push(a[0]) + a.drop_first() =~= cur + a);
    }
}

/// The rows of a grid's text split into the rows.
proof fn lemma_split_rows(g: Grid, n: int, t: Seq<u8>)
    requires
        0 <= n,
        g.width >= 0,
    ensures
        split_on(rows_text(g, n) + t, 10u8) == Seq::new(n as nat, |y: int| row_bytes(g, y)) + split_on(t, 10u8),
    decreases n,
{
    if n == 0 {
        assert(rows_text(g, n) + t =~= t);
        assert(Seq::new(n as nat, |y: int| row_bytes(g, y)) + split_on(t, 10u8) =~= split_on(t, 10u8));
    } else {
        let row = row_bytes(g, n - 1);
        let rest = row + seq![10u8] + t;
        assert(rows_text(g, n) + t =~= rows_text(g, n - 1) + rest);
        lemma_split_rows(g, n - 1, rest);
        lemma_split_join(row, t, 10u8, Seq::empty());
        assert forall|k: int| 0 <= k < row.len() implies row[k] != 10u8 by {}
        lemma_split_single(row, 10u8, Seq::empty());
        assert(Seq::<u8>::empty() + row =~= row);
        assert(Seq::new(n as nat, |y: int| row_bytes(g, y)) =~= Seq::new((n - 1) as nat, |y: int| row_bytes(g, y)).push(row));
        assert(Seq::new(n as nat, |y: int| row_bytes(g, y)) + split_on(t, 10u8) =~= Seq::new((n - 1) as nat, |y: int| row_bytes(g, y))
            + (seq![row] + split_on(t, 10u8)));
    }
}

proof fn lemma_dec_bytes(n: nat, k: int)
    requires
        0 <= k <= 9,
        n < bound(k),
    ensures
        1 <= dec_bytes(n).len() <= if k == 0 { 1 } else { k },
        forall|j: int| 0 <= j < dec_bytes(n).len() ==> is_digit(#[trigger] dec_bytes(n)[j]),
        dec(dec_bytes(n)) == n,
    decreases n,
{
    if n >= 10 {
        assert(k >= 2);
        assert(n / 10 < bound(k - 1)) by (nonlinear_arith)
            requires
                n < bound(k),
                bound(k) == bound(k - 1) * 10,
        ;
        lemma_dec_bytes(n / 10, k - 1);
        let d = dec_bytes(n);
        assert(d.drop_last() =~= dec_bytes(n / 10));
        assert(forall|j: int| 0 <= j < d.len() - 1 ==> d[j] == dec_bytes(n / 10)[j]);
        assert(d.last() == ((n % 10 + 48) as u8));
        assert(dec(d) == dec(d.drop_last()) * 10 + (d.last() - 48));
        assert((n / 10) * 10 + n % 10 == n) by (nonlinear_arith);
    } else {
        let d = dec_bytes(n);
        assert(d.drop_last() =~= Seq::<u8>::empty());
        assert(dec(d) == dec(d.drop_last()) * 10 + (d.last() - 48));
    }
}

/// The text of a grid is a map: the header gives the grid's size, and the rows hold `@`
/// exactly where the grid has a permanent entry.
pub proof fn lemma_map_text(g: Grid)
    requires
        0 <= g.width < 1_000_000_000,
        0 <= g.height < 1_000_000_000,
    ensures
        map_ok(lines_of(map_text(g))),
        field_value(lines_of(map_text(g))[1], height_word()) == g.height,
        field_value(lines_of(map_text(g))[2], width_word()) == g.width,
        forall|x: int, y: int|
            0 <= x < g.width && 0 <= y < g.height ==> (#[trigger] lines_of(map_text(g))[4 + y][x] == 64u8 <==> exists|k: int|
                0 <= k < g.obstacles@.len() && #[trigger] g.obstacles@[k].0 == (LocationTime {
                    location: (x as i32, y as i32),
                    time: -1i32,
                })),
{
    let nl = 10u8;
    let hline = height_word() + dec_bytes(g.height as nat);
    let wline = width_word() + dec_bytes(g.width as nat);
    let rows = rows_text(g, g.height as int);
    let text = map_text(g);
    assert(text =~= type_octile() + seq![nl] + (hline + seq![nl] + (wline + seq![nl] + (map_word() + seq![nl] + rows))));
    lemma_dec_bytes(g.height as nat, 9);
    lemma_dec_bytes(g.width as nat, 9);
    assert forall|k: int| 0 <= k < type_octile().len() implies type_octile()[k] != nl by {}
    assert forall|k: int| 0 <= k < hline.len() implies hline[k] != nl by {
        if k >= height_word().len() {
            assert(is_digit(dec_bytes(g.height as nat)[k - height_word().len()]));
        }
    }
    assert forall|k: int| 0 <= k < wline.len() implies wline[k] != nl by {
        if k >= width_word().len() {
            assert(is_digit(dec_bytes(g.width as nat)[k - width_word().len()]));
        }
    }
    assert forall|k: int| 0 <= k < map_word().len() implies map_word()[k] != nl by {}
    lemma_split_join(type_octile(), hline + seq![nl] + (wline + seq![nl] + (map_word() + seq![nl] + rows)), nl, Seq::empty());
    lemma_split_join(hline, wline + seq![nl] + (map_word() + seq![nl] + rows), nl, Seq::empty());
    lemma_split_join(wline, map_word() + seq![nl] + rows, nl, Seq::empty());
    lemma_split_join(map_word(), rows, nl, Seq::empty());
    lemma_split_single(type_octile(), nl, Seq::empty());
    lemma_split_single(hline, nl, Seq::empty());
    lemma_split_single(wline, nl, Seq::empty());
    lemma_split_single(map_word(), nl, Seq::empty());
    assert(rows + Seq::<u8>::empty() =~= rows);
    lemma_split_rows(g, g.height as int, Seq::empty());
    let rs = Seq::new(g.height as nat, |y: int| row_bytes(g, y));
    let pieces = split_on(text, nl);
    assert(Seq::<u8>::empty() + type_octile() =~= type_octile());
    assert(Seq::<u8>::empty() + hline =~= hline);
    assert(Seq::<u8>::empty() + wline =~= wline);
    assert(Seq::<u8>::empty() + map_word() =~= map_word());
    assert(split_on(Seq::<u8>::empty(), nl) == seq![Seq::<u8>::empty()]);
    assert(pieces =~= seq![type_octile(), hline, wline, map_word()] + rs + seq![Seq::<u8>::empty()]);
    let ls = lines_of(text);
    assert(ls.len() == pieces.len());
    assert(ls[0] == type_octile());
    assert(ls[1] == hline);
    assert(ls[2] == wline);
    assert(ls[3] == map_word());
    assert forall|y: int| 0 <= y < g.height implies #[trigger] ls[4 + y] == row_bytes(g, y) by {
        assert(pieces[4 + y] == rs[y]);
        let r = row_bytes(g, y);
        if r.len() > 0 {
            assert(r.last() == map_byte(g.obstacles@, r.len() - 1, y));
        }
    }
    assert(hline.take(height_word().len() as int) =~= height_word());
    assert(hline.skip(height_word().len() as int) =~= dec_bytes(g.height as nat));
    assert(wline.take(width_word().len() as int) =~= width_word());
    assert(wline.skip(width_word().len() as int) =~= dec_bytes(g.width as nat));
    assert(map_ok(ls));
}

/// Reading a map, writing it out and reading it again gives a grid of the same size with
/// the same obstacle cells.
pub proof fn lemma_map_round_trip(text: Seq<u8>, first: Grid, bytes: Seq<u8>, second: Grid)
    requires
        map_ok(lines_of(text)),
        parsed_map(lines_of(text), first),
        bytes == map_text(first),
        parsed_map(lines_of(bytes), second),
    ensures
        second.width == first.width,
        second.height == first.height,
        forall|x: int, y: int| #[trigger] has_obstacle_at(first, x, y) <==> has_obstacle_at(second, x, y),
{
    let ls = lines_of(text);
    let h = field_value(ls[1], height_word());
    let w = field_value(ls[2], width_word());
    assert(is_number(ls[1].skip(height_word().len() as int)));
    assert(is_number(ls[2].skip(width_word().len() as int)));
    lemma_dec_range(ls[1].skip(height_word().len() as int));
    lemma_dec_range(ls[2].skip(width_word().len() as int));
    lemma_map_text(first);
    let ms = lines_of(bytes);
    assert forall|x: int, y: int| #[trigger] has_obstacle_at(first, x, y) <==> has_obstacle_at(second, x, y) by {
        if has_obstacle_at(first, x, y) {
            let k = choose|k: int| 0 <= k < first.obstacles@.len() && #[trigger] first.obstacles@[k].0.location == (x as i32, y as i32);
            let cell = first.obstacles@[k].0.location;
            assert(first.obstacles@[k].0 == (LocationTime { location: (cell.0 as int as i32, cell.1 as int as i32), time: -1i32 }));
            assert(ms[4 + cell.1 as int][cell.0 as int] == 64u8);
            let j = choose|j: int| 0 <= j < second.obstacles@.len() && (#[trigger] second.obstacles@[j]).0.location == (cell.0 as int as i32, cell.1 as int as i32);
            assert(second.obstacles@[j].0.location == (x as i32, y as i32));
        }
        if has_obstacle_at(second, x, y) {
            let k = choose|k: int| 0 <= k < second.obstacles@.len() && #[trigger] second.obstacles@[k].0.location == (x as i32, y as i32);
            let cell = second.obstacles@[k].0.location;
            assert(ms[4 + cell.1 as int][cell.0 as int] == 64u8);
            let j = choose|j: int| 0 <= j < first.obstacles@.len() && #[trigger] first.obstacles@[j].0 == (LocationTime {
                location: (cell.0 as int as i32, cell.1 as int as i32),
                time: -1i32,
            });
            assert(first.obstacles@[j].0.location == (x as i32, y as i32));
        }
    }
}

/// The grid has an entry on the cell `(x, y)`.
pub open spec fn has_obstacle_at(g: Grid, x: int, y: int) -> bool {
    exists|k: int| 0 <= k < g.obstacles@.len() && #[trigger] g.obstacles@[k].0.location == (x as i32, y as i32)
}

/// Writing out a grid whose entries are permanent obstacles on the grid and reading the
/// text back gives a grid of the same size with obstacles on the same cells.
pub proof fn lemma_grid_round_trip(g: Grid, parsed: Grid)
    requires
        0 <= g.width < 1_000_000_000,
        0 <= g.height < 1_000_000_000,
        forall|k: int|
            0 <= k < g.obstacles@.len() ==> (#[trigger] g.obstacles@[k]).0.time == -1 && 0 <= g.obstacles@[k].0.location.0
                < g.width && 0 <= g.obstacles@[k].0.location.1 < g.height,
        parsed_map(lines_of(map_text(g)), parsed),
    ensures
        map_ok(lines_of(map_text(g))),
        parsed.width == g.width,
        parsed.height == g.height,
        forall|x: i32, y: i32| #[trigger] has_obstacle_at(parsed, x as int, y as int) <==> has_obstacle_at(g, x as int, y as int),
{
    lemma_map_text(g);
    let ls = lines_of(map_text(g));
    assert forall|x: i32, y: i32| #[trigger] has_obstacle_at(parsed, x as int, y as int) <==> has_obstacle_at(g, x as int, y as int) by {
        if has_obstacle_at(g, x as int, y as int) {
            let k = choose|k: int| 0 <= k < g.obstacles@.len() && #[trigger] g.obstacles@[k].0.location == (x, y);
            assert(g.obstacles@[k].0 == (LocationTime { location: (x, y), time: -1i32 }));
            assert(ls[4 + y as int][x as int] == 64u8);
            let j = choose|j: int| 0 <= j < parsed.obstacles@.len() && (#[trigger] parsed.obstacles@[j]).0.location == (x, y);
            assert(parsed.obstacles@[j].0.location == (x, y));
        }
        if has_obstacle_at(parsed, x as int, y as int) {
            let k = choose|k: int| 0 <= k < parsed.obstacles@.len() && #[trigger] parsed.obstacles@[k].0.location == (x, y);
            assert(ls[4 + y as int][x as int] == 64u8);
            let j = choose|j: int| 0 <= j < g.obstacles@.len() && #[trigger] g.obstacles@[j].0 == (LocationTime {
                location: (x, y),
                time: -1i32,
            });
            assert(g.obstacles@[j].0.location == (x, y));
        }
    }
}

/// A number of at most nine digits is below a billion.
proof fn lemma_dec_range(s: Seq<u8>)
    requires
        s.len() <= 9,
        forall|k: int| 0 <= k < s.len() ==> is_digit(#[trigger] s[k]),
    ensures
        0 <= dec(s) < bound(s.len() as int),
    decreases s.len(),
{
    if s.len() > 0 {
        lemma_dec_range(s.drop_last());
        assert(is_digit(s[s.len() - 1]));
        let p = dec(s.drop_last());
        let b = bound(s.len() - 1);
        assert(bound(s.len() as int) == b * 10);
        assert(p * 10 + 9 < b * 10) by (nonlinear_arith)
            requires
                p < b,
        ;
    }
}

} // verus!
